//! Activities and their decomposition into segments.

use crate::id_generator::IdGenerator;
use crate::sat_seg_var::{duplicate, Clause};
use crate::sat_seg_var::SATSVar;
use crate::segment::{extended, ids_of, occurrences, positive, start_ids_fit, Segment};
use crate::text::{append_decimal, append_list, decimal, list_text};
use vstd::prelude::*;
use vstd::string::*;

verus! {

/// A schedulable unit of work. Its segments and its predecessors are named
/// by position: segments in the instance's list of segments, predecessors by
/// their activity number, which counts from 1.
#[derive(Debug, Clone)]
pub struct Project {
    pub duration: usize,
    pub id: usize,
    pub resource: Vec<usize>,
    pub precedence: Vec<usize>,
    pub segments: Vec<usize>,
}

/// Two activities are the same activity when they have the same id.
impl PartialEq for Project {
    fn eq(&self, other: &Self) -> (equal: bool) {
        self.id == other.id
    }
}

impl vstd::std_specs::cmp::PartialEqSpecImpl for Project {
    open spec fn obeys_eq_spec() -> bool {
        true
    }

    open spec fn eq_spec(&self, other: &Self) -> bool {
        self.id == other.id
    }
}

/// The number of segments of an activity of duration `d` that start before
/// the offset `x`: the offsets `a` below `x` contribute `d - a + 1` each.
pub open spec fn row_start(d: nat, x: nat) -> nat
    decreases x,
{
    if x <= 1 {
        0
    } else {
        row_start(d, (x - 1) as nat) + (d + 2 - x) as nat
    }
}

/// Where the segment of offset `x` and span `y` stands among the segments of
/// an activity of duration `d`.
pub open spec fn position(d: nat, x: nat, y: nat) -> int {
    row_start(d, x) + y - 1
}

/// The number of segments of an activity of duration `d`.
pub open spec fn segment_total(d: nat) -> nat {
    if d == 0 {
        1
    } else {
        row_start(d, d + 1)
    }
}

/// The ids of the segments in `earlier` that end where the offset `x` begins.
pub open spec fn ending_at(earlier: Seq<Segment>, x: int) -> Seq<usize>
    decreases earlier.len(),
{
    if earlier.len() == 0 {
        Seq::empty()
    } else {
        let rest = ending_at(earlier.drop_last(), x);
        let s = earlier.last();
        if s.start_jiff + s.og_duration == x {
            rest.push(s.id)
        } else {
            rest
        }
    }
}

/// `s` is a newly made segment of offset `x` and span `y`.
pub open spec fn is_fresh(
    s: Segment,
    x: nat,
    y: nat,
    id: int,
    parent: usize,
    resource: Seq<usize>,
) -> bool {
    &&& s.start_jiff == x
    &&& s.duration == y
    &&& s.og_duration == y
    &&& s.id == id
    &&& s.parent_project == parent
    &&& s.resource@ == resource
    &&& s.variables@.len() == 0
    &&& s.uvariables@.len() == 0
    &&& s.early_start == 0
    &&& s.latest_start == 0
    &&& s.has_set_up == (x == 1 && y > 0)
}

/// `segs` is the decomposition of an activity of the given duration: one
/// segment for every offset `x` from 1 to the duration and every span `y`
/// that fits behind it, ordered by offset and then by span, with consecutive
/// ids from `first_id`; each has as predecessors the earlier segments that
/// end where it begins. An activity without duration has the single segment
/// of offset 0 and span 0.
pub open spec fn is_decomposition(
    segs: Seq<Segment>,
    duration: nat,
    first_id: int,
    parent: usize,
    resource: Seq<usize>,
) -> bool {
    if duration == 0 {
        &&& segs.len() == 1
        &&& is_fresh(segs[0], 0, 0, first_id, parent, resource)
        &&& segs[0].precedence@.len() == 0
    } else {
        &&& segs.len() == row_start(duration, duration + 1)
        &&& forall|x: nat, y: nat|
            1 <= x <= duration && 1 <= y <= duration + 1 - x ==> {
                &&& is_fresh(
                    #[trigger] segs[position(duration, x, y)],
                    x,
                    y,
                    first_id + position(duration, x, y),
                    parent,
                    resource,
                )
                &&& segs[position(duration, x, y)].precedence@ == ending_at(
                    segs.take(position(duration, x, y)),
                    x as int,
                )
            }
    }
}

/// The segments are numbered from `first_id` in their order, belong to
/// `parent`, demand `resource`, have spans of at most `duration` that no
/// setup has lengthened, and have predecessors among the earlier ones only.
pub open spec fn is_numbered(
    segs: Seq<Segment>,
    first_id: int,
    parent: usize,
    resource: Seq<usize>,
    duration: nat,
) -> bool {
    forall|i: int|
        0 <= i < segs.len() ==> {
            &&& (#[trigger] segs[i]).id == first_id + i
            &&& segs[i].parent_project == parent
            &&& segs[i].resource@ == resource
            &&& segs[i].duration == segs[i].og_duration
            &&& segs[i].duration <= duration
            &&& forall|c: int|
                0 <= c < segs[i].precedence@.len() ==> first_id <= (
                #[trigger] segs[i].precedence@[c]) < first_id + i
        }
}

/// The segments that end at an offset are among the segments looked at.
pub proof fn lemma_ending_at_members(earlier: Seq<Segment>, x: int)
    ensures
        forall|c: int|
            0 <= c < ending_at(earlier, x).len() ==> exists|j: int|
                0 <= j < earlier.len() && earlier[j].id == #[trigger] ending_at(earlier, x)[c],
    decreases earlier.len(),
{
    if earlier.len() > 0 {
        let rest = earlier.drop_last();
        lemma_ending_at_members(rest, x);
        let all = ending_at(earlier, x);
        assert forall|c: int| 0 <= c < all.len() implies exists|j: int|
            0 <= j < earlier.len() && earlier[j].id == #[trigger] all[c] by {
            if c < ending_at(rest, x).len() {
                let j = choose|j: int| 0 <= j < rest.len() && rest[j].id == ending_at(rest, x)[c];
                assert(earlier[j].id == all[c]);
            } else {
                assert(earlier[earlier.len() - 1].id == all[c]);
            }
        }
    }
}

/// What of a decomposition no later step changes: how many segments there
/// are, and the offset, the original span and the owner of each.
pub open spec fn has_layout(segs: Seq<Segment>, duration: nat, parent: usize) -> bool {
    if duration == 0 {
        &&& segs.len() == 1
        &&& segs[0].start_jiff == 0
        &&& segs[0].og_duration == 0
        &&& segs[0].parent_project == parent
    } else {
        &&& segs.len() == row_start(duration, duration + 1)
        &&& forall|x: nat, y: nat|
            1 <= x <= duration && 1 <= y <= duration + 1 - x ==> {
                &&& (#[trigger] segs[position(duration, x, y)]).start_jiff == x
                &&& segs[position(duration, x, y)].og_duration == y
                &&& segs[position(duration, x, y)].parent_project == parent
            }
    }
}

/// A rule by which segments of an activity are chosen.
#[derive(Debug, Clone, Copy)]
pub enum Choice {
    /// The segments of the activity `project` that begin with it.
    First { project: usize },
    /// The segments of the activity `project` that end with it.
    Last { project: usize, duration: usize },
    /// The segments whose original interval holds the time unit `jiffy`.
    Covering { jiffy: usize },
}

/// Whether the rule chooses the segment.
pub open spec fn chooses(choice: Choice, s: Segment) -> bool {
    match choice {
        Choice::First { project } => s.parent_project == project && s.start_jiff <= 1,
        Choice::Last { project, duration } => s.parent_project == project && (s.start_jiff
            + s.og_duration == duration + 1 || duration == 0),
        Choice::Covering { jiffy } => s.start_jiff <= jiffy < s.start_jiff + s.og_duration,
    }
}

/// Those among the first `count` entries of `ids` whose segment the rule
/// chooses, in their order.
pub open spec fn chosen(arena: Seq<Segment>, ids: Seq<usize>, choice: Choice, count: nat) -> Seq<
    usize,
>
    decreases count,
{
    if count == 0 {
        Seq::empty()
    } else {
        let rest = chosen(arena, ids, choice, (count - 1) as nat);
        if chooses(choice, arena[ids[count - 1] as int]) {
            rest.push(ids[count - 1])
        } else {
            rest
        }
    }
}

/// The segments that `ids` names, in their order.
pub open spec fn members(arena: Seq<Segment>, ids: Seq<usize>) -> Seq<Segment> {
    Seq::new(ids.len(), |k: int| arena[ids[k] as int])
}

/// Every entry of `ids` names a segment of `arena`.
pub open spec fn all_within(ids: Seq<usize>, bound: nat) -> bool {
    forall|k: int| 0 <= k < ids.len() ==> (#[trigger] ids[k]) < bound
}

/// The offsets below `x` hold `(x - 1)(2d + 2 - x) / 2` segments.
pub proof fn lemma_row_start_closed(d: nat, x: nat)
    requires
        1 <= x <= d + 1,
    ensures
        2 * row_start(d, x) == (x - 1) * (2 * d + 2 - x),
    decreases x,
{
    if x > 1 {
        lemma_row_start_closed(d, (x - 1) as nat);
        assert(2 * row_start(d, x) == 2 * row_start(d, (x - 1) as nat) + 2 * (d + 2 - x));
        assert((x - 2) * (2 * d + 3 - x) + 2 * (d + 2 - x) == (x - 1) * (2 * d + 2 - x))
            by (nonlinear_arith);
    } else {
        assert((x - 1) * (2 * d + 2 - x) == 0) by (nonlinear_arith)
            requires
                x == 1,
        ;
    }
}

/// An activity of duration `d > 0` has `d (d + 1) / 2` segments, and one
/// without duration has one.
pub proof fn lemma_segment_total(d: nat)
    ensures
        d > 0 ==> 2 * segment_total(d) == d * (d + 1),
        d == 0 ==> segment_total(d) == 1,
{
    if d > 0 {
        lemma_row_start_closed(d, d + 1);
        assert((d + 1 - 1) * (2 * d + 2 - (d + 1)) == d * (d + 1)) by (nonlinear_arith);
    }
}

/// Later offsets begin at later positions.
pub proof fn lemma_row_start_monotone(d: nat, a: nat, b: nat)
    requires
        a <= b,
    ensures
        row_start(d, a) <= row_start(d, b),
    decreases b,
{
    if a < b {
        lemma_row_start_monotone(d, a, (b - 1) as nat);
    }
}

/// The rows of the decomposition follow each other without gap or overlap:
/// a segment of an earlier offset, or of the same offset and a shorter span,
/// stands at an earlier position.
pub proof fn lemma_position_order(d: nat, x1: nat, y1: nat, x2: nat, y2: nat)
    requires
        1 <= x1 <= d,
        1 <= y1 <= d + 1 - x1,
        1 <= x2,
        1 <= y2,
        x1 < x2 || (x1 == x2 && y1 < y2),
    ensures
        0 <= position(d, x1, y1) < position(d, x2, y2),
{
    if x1 < x2 {
        lemma_row_start_monotone(d, x1 + 1, x2);
    }
}

/// The segments chosen among a prefix stay chosen, in place, when more
/// entries are considered.
proof fn lemma_first_prefix(arena: Seq<Segment>, ids: Seq<usize>, d: nat, project: usize, x: nat, y: nat)
    requires
        d > 0,
        has_layout(members(arena, ids), d, project),
        1 <= x <= d,
        y <= d + 1 - x,
    ensures
        chosen(arena, ids, Choice::First { project }, (row_start(d, x) + y) as nat).len() == if x
            == 1 {
            y
        } else {
            d
        },
    decreases x, y,
{
    if y == 0 {
        if x > 1 {
            lemma_first_prefix(arena, ids, d, project, (x - 1) as nat, (d + 2 - x) as nat);
        }
    } else {
        lemma_first_prefix(arena, ids, d, project, x, (y - 1) as nat);
        lemma_row_start_monotone(d, x + 1, d + 1);
        let k = position(d, x, y);
        assert(members(arena, ids)[k].start_jiff == x);
        assert(members(arena, ids)[k] == arena[ids[k] as int]);
        assert(row_start(d, x) + y - 1 == k);
    }
}

proof fn lemma_last_prefix(arena: Seq<Segment>, ids: Seq<usize>, d: nat, project: usize, x: nat, y: nat)
    requires
        d > 0,
        d < usize::MAX,
        has_layout(members(arena, ids), d, project),
        1 <= x <= d,
        y <= d + 1 - x,
    ensures
        chosen(
            arena,
            ids,
            Choice::Last { project, duration: d as usize },
            (row_start(d, x) + y) as nat,
        ).len() == if y == d + 1 - x {
            x
        } else {
            (x - 1) as nat
        },
    decreases x, y,
{
    if y == 0 {
        if x > 1 {
            lemma_last_prefix(arena, ids, d, project, (x - 1) as nat, (d + 2 - x) as nat);
        }
    } else {
        lemma_last_prefix(arena, ids, d, project, x, (y - 1) as nat);
        lemma_row_start_monotone(d, x + 1, d + 1);
        let k = position(d, x, y);
        assert(members(arena, ids)[k].start_jiff == x);
        assert(members(arena, ids)[k].og_duration == y);
        assert(members(arena, ids)[k] == arena[ids[k] as int]);
        assert(row_start(d, x) + y - 1 == k);
    }
}

/// Of the segments of an activity of duration `d > 0`, exactly `d` begin
/// with the activity and exactly `d` end with it.
pub proof fn lemma_first_and_last_counts(
    arena: Seq<Segment>,
    ids: Seq<usize>,
    d: nat,
    project: usize,
)
    requires
        d > 0,
        d < usize::MAX,
        has_layout(members(arena, ids), d, project),
    ensures
        ids.len() == segment_total(d),
        chosen(arena, ids, Choice::First { project }, ids.len()).len() == d,
        chosen(arena, ids, Choice::Last { project, duration: d as usize }, ids.len()).len() == d,
{
    lemma_first_prefix(arena, ids, d, project, d, 1);
    lemma_last_prefix(arena, ids, d, project, d, 1);
    assert(row_start(d, d + 1) == row_start(d, d) + 1);
}

/// A decomposition has the layout of its duration.
pub proof fn lemma_decomposition_has_layout(
    segs: Seq<Segment>,
    duration: nat,
    first_id: int,
    parent: usize,
    resource: Seq<usize>,
)
    requires
        is_decomposition(segs, duration, first_id, parent, resource),
    ensures
        has_layout(segs, duration, parent),
{
    if duration > 0 {
        assert forall|x: nat, y: nat| 1 <= x <= duration && 1 <= y <= duration + 1 - x implies {
            &&& (#[trigger] segs[position(duration, x, y)]).start_jiff == x
            &&& segs[position(duration, x, y)].og_duration == y
            &&& segs[position(duration, x, y)].parent_project == parent
        } by {
            assert(is_fresh(
                segs[position(duration, x, y)],
                x,
                y,
                first_id + position(duration, x, y),
                parent,
                resource,
            ));
        }
    }
}

/// The ids of the segments of `segs` that end where the offset `x` begins.
fn precedents_of(segs: &Vec<Segment>, x: usize) -> (precedents: Vec<usize>)
    ensures
        precedents@ == ending_at(segs@, x as int),
{
    let mut precedents: Vec<usize> = Vec::new();
    let mut j: usize = 0;
    while j < segs.len()
        invariant
            j <= segs.len(),
            precedents@ == ending_at(segs@.take(j as int), x as int),
        decreases segs.len() - j,
    {
        let old_segment = &segs[j];
        if old_segment.start_jiff <= x && old_segment.og_duration == x - old_segment.start_jiff {
            precedents.push(old_segment.id);
        }
        proof {
            let next = segs@.take(j + 1);
            assert(next.drop_last() =~= segs@.take(j as int));
            assert(next.last() == segs@[j as int]);
        }
        j = j + 1;
    }
    assert(segs@.take(segs.len() as int) =~= segs@);
    precedents
}

/// Pushing one more segment leaves what was said of the earlier ones intact.
proof fn lemma_rows_survive_push(
    before: Seq<Segment>,
    after: Seq<Segment>,
    d: nat,
    first_id: int,
    parent: usize,
    resource: Seq<usize>,
    x: nat,
    y: nat,
)
    requires
        1 <= x <= d,
        1 <= y <= d + 1 - x,
        before.len() == position(d, x, y),
        after.len() == before.len() + 1,
        after.take(before.len() as int) == before,
        rows_done(before, d, first_id, parent, resource, x, y),
        is_fresh(after[position(d, x, y)], x, y, first_id + position(d, x, y), parent, resource),
        after[position(d, x, y)].precedence@ == ending_at(before, x as int),
    ensures
        rows_done(after, d, first_id, parent, resource, x, y + 1),
{
    assert forall|a: nat, b: nat|
        1 <= a <= d && 1 <= b <= d + 1 - a && (a < x || (a == x && b < y + 1)) implies {
        &&& is_fresh(
            #[trigger] after[position(d, a, b)],
            a,
            b,
            first_id + position(d, a, b),
            parent,
            resource,
        )
        &&& after[position(d, a, b)].precedence@ == ending_at(
            after.take(position(d, a, b)),
            a as int,
        )
    } by {
        if a == x && b == y {
        } else {
            lemma_position_order(d, a, b, x, y);
            let k = position(d, a, b);
            assert(after[k] == before[k]);
            assert(after.take(k) =~= before.take(k));
        }
    }
}

/// Every segment that precedes the one of offset `x` and span `y` in the
/// order of the decomposition is in place.
pub open spec fn rows_done(
    segs: Seq<Segment>,
    d: nat,
    first_id: int,
    parent: usize,
    resource: Seq<usize>,
    x: nat,
    y: nat,
) -> bool {
    forall|a: nat, b: nat|
        1 <= a <= d && 1 <= b <= d + 1 - a && (a < x || (a == x && b < y)) ==> {
            &&& is_fresh(
                #[trigger] segs[position(d, a, b)],
                a,
                b,
                first_id + position(d, a, b),
                parent,
                resource,
            )
            &&& segs[position(d, a, b)].precedence@ == ending_at(
                segs.take(position(d, a, b)),
                a as int,
            )
        }
}

/// The positive literals of the given start variables, in their order.
pub open spec fn start_literals(vars: Seq<SATSVar>) -> Seq<i64> {
    Seq::new(vars.len(), |k: int| positive(vars[k].id))
}

/// The start literals of the first `count` segments named by `picks`, one
/// segment after the other.
pub open spec fn joined_literals(arena: Seq<Segment>, picks: Seq<usize>, count: nat) -> Seq<i64>
    decreases count,
{
    if count == 0 {
        Seq::empty()
    } else {
        joined_literals(arena, picks, (count - 1) as nat) + start_literals(
            arena[picks[count - 1] as int].variables@,
        )
    }
}

/// The completion clause of the time unit `jiffy`: the start literals of
/// every segment among `ids` whose original interval holds it.
pub open spec fn completion_clause(arena: Seq<Segment>, ids: Seq<usize>, jiffy: usize) -> Seq<i64> {
    let covering = chosen(arena, ids, Choice::Covering { jiffy }, ids.len());
    joined_literals(arena, covering, covering.len())
}

/// The predecessors of segment `s`, which were `base`, after the first
/// segments `ours` of an activity have been linked with the last segments of
/// the first `count` of its predecessors `preds`, which are numbered from 1
/// in `projects`.
pub open spec fn linked_precedence(
    base: Seq<usize>,
    arena: Seq<Segment>,
    ours: Seq<usize>,
    projects: Seq<Project>,
    preds: Seq<usize>,
    s: int,
    count: nat,
) -> Seq<usize>
    decreases count,
{
    if count == 0 {
        base
    } else {
        let pred = projects[preds[count - 1] - 1];
        let theirs = chosen(
            arena,
            pred.segments@,
            Choice::Last { project: pred.id, duration: pred.duration },
            pred.segments@.len(),
        );
        extended(
            linked_precedence(base, arena, ours, projects, preds, s, (count - 1) as nat),
            ids_of(arena, theirs, theirs.len()),
            occurrences(ours, s, ours.len()),
        )
    }
}

/// `after` differs from `before` in lists of predecessors only.
pub open spec fn same_but_precedence(before: Seq<Segment>, after: Seq<Segment>) -> bool {
    &&& after.len() == before.len()
    &&& forall|s: int|
        0 <= s < before.len() ==> (#[trigger] after[s]) == (Segment {
            precedence: after[s].precedence,
            ..before[s]
        })
}

/// A choice looks at offsets, spans and owners only.
pub proof fn lemma_chosen_ignores_precedence(
    before: Seq<Segment>,
    after: Seq<Segment>,
    ids: Seq<usize>,
    choice: Choice,
    count: nat,
)
    requires
        same_but_precedence(before, after),
        all_within(ids, before.len()),
        count <= ids.len(),
    ensures
        chosen(after, ids, choice, count) == chosen(before, ids, choice, count),
    decreases count,
{
    if count > 0 {
        lemma_chosen_ignores_precedence(before, after, ids, choice, (count - 1) as nat);
        let g = ids[count - 1] as int;
        assert(after[g] == (Segment { precedence: after[g].precedence, ..before[g] }));
    }
}

/// Ids stay what they are when lists of predecessors change.
pub proof fn lemma_ids_ignore_precedence(
    before: Seq<Segment>,
    after: Seq<Segment>,
    picks: Seq<usize>,
    count: nat,
)
    requires
        same_but_precedence(before, after),
        all_within(picks, before.len()),
        count <= picks.len(),
    ensures
        ids_of(after, picks, count) == ids_of(before, picks, count),
    decreases count,
{
    if count > 0 {
        lemma_ids_ignore_precedence(before, after, picks, (count - 1) as nat);
        let g = picks[count - 1] as int;
        assert(after[g] == (Segment { precedence: after[g].precedence, ..before[g] }));
    }
}

/// Whether the two sums agree, without forming them in machine integers.
fn ends_at(start: usize, span: usize, duration: usize) -> (yes: bool)
    ensures
        yes == (start + span == duration + 1),
{
    start as u128 + span as u128 == duration as u128 + 1
}

/// Those entries of `ids` whose segment the rule chooses, in their order.
pub fn select(arena: &Vec<Segment>, ids: &Vec<usize>, choice: Choice) -> (picked: Vec<usize>)
    requires
        all_within(ids@, arena@.len()),
    ensures
        picked@ == chosen(arena@, ids@, choice, ids@.len()),
        forall|k: int|
            0 <= k < picked@.len() ==> (#[trigger] picked@[k]) < arena@.len() && chooses(
                choice,
                arena@[picked@[k] as int],
            ),
{
    let mut picked: Vec<usize> = Vec::new();
    let mut k: usize = 0;
    while k < ids.len()
        invariant
            k <= ids.len(),
            all_within(ids@, arena@.len()),
            picked@ == chosen(arena@, ids@, choice, k as nat),
            forall|c: int|
                0 <= c < picked@.len() ==> (#[trigger] picked@[c]) < arena@.len() && chooses(
                    choice,
                    arena@[picked@[c] as int],
                ),
        decreases ids.len() - k,
    {
        let s = &arena[ids[k]];
        let keep = match choice {
            Choice::First { project } => s.parent_project == project && s.start_jiff <= 1,
            Choice::Last { project, duration } => s.parent_project == project && (ends_at(
                s.start_jiff,
                s.og_duration,
                duration,
            ) || duration == 0),
            Choice::Covering { jiffy } => s.start_jiff <= jiffy && jiffy - s.start_jiff
                < s.og_duration,
        };
        if keep {
            picked.push(ids[k]);
        }
        k = k + 1;
    }
    picked
}

/// An activity as text: its number, its duration, its demands, the numbers
/// of its predecessors and the places of its segments.
pub open spec fn project_text(p: Project) -> Seq<char> {
    "Project with ID: "@ + decimal(p.id as nat) + " \nDuration: "@ + decimal(p.duration as nat)
        + "\n Resource: "@ + list_text(p.resource@) + "  \nPrecedents: "@ + list_text(
        p.precedence@,
    ) + "\n Segments: "@ + list_text(p.segments@)
}

impl Project {
    /// The activity as text, for a reader.
    pub fn to_string(&self) -> (text: String)
        ensures
            text@ == project_text(*self),
    {
        let mut text = String::new();
        text.append("Project with ID: ");
        append_decimal(&mut text, self.id as u128);
        text.append(" \nDuration: ");
        append_decimal(&mut text, self.duration as u128);
        text.append("\n Resource: ");
        append_list(&mut text, &self.resource);
        text.append("  \nPrecedents: ");
        append_list(&mut text, &self.precedence);
        text.append("\n Segments: ");
        append_list(&mut text, &self.segments);
        assert(text@ =~= project_text(*self));
        text
    }

    /// The segments of an activity: every offset from 1 to the duration with
    /// every span that fits behind it, each with a fresh id and with the
    /// earlier segments that end where it begins as predecessors. An
    /// activity without duration has one segment without duration.
    pub fn generate_segments(
        parent_id: usize,
        id_gen: &mut IdGenerator,
        parent_resource: &Vec<usize>,
        duration: usize,
    ) -> (segments: Vec<Segment>)
        requires
            duration < usize::MAX,
            old(id_gen).0 + segment_total(duration as nat) <= usize::MAX,
        ensures
            is_decomposition(
                segments@,
                duration as nat,
                old(id_gen).0 as int,
                parent_id,
                parent_resource@,
            ),
            segments.len() == segment_total(duration as nat),
            final(id_gen).0 == old(id_gen).0 + segments.len(),
            is_numbered(
                segments@,
                old(id_gen).0 as int,
                parent_id,
                parent_resource@,
                duration as nat,
            ),
    {
        let mut segments: Vec<Segment> = Vec::new();
        let ghost d = duration as nat;
        let ghost first_id = id_gen.0 as int;
        if duration == 0 {
            let segment = Segment::new(
                0,
                0,
                Vec::new(),
                id_gen.next_id(),
                parent_id,
                duplicate(parent_resource),
            );
            segments.push(segment);
        } else {
            let mut x: usize = 1;
            while x <= duration
                invariant
                    d == duration,
                    0 < duration < usize::MAX,
                    first_id == old(id_gen).0,
                    first_id + row_start(d, d + 1) <= usize::MAX,
                    1 <= x <= duration + 1,
                    segments.len() == row_start(d, x as nat),
                    id_gen.0 == first_id + segments.len(),
                    rows_done(segments@, d, first_id, parent_id, parent_resource@, x as nat, 1),
                    is_numbered(segments@, first_id, parent_id, parent_resource@, d),
                decreases duration + 1 - x,
            {
                let mut y: usize = 1;
                while y <= duration - x + 1
                    invariant
                        d == duration,
                        0 < duration < usize::MAX,
                        first_id == old(id_gen).0,
                        first_id + row_start(d, d + 1) <= usize::MAX,
                        1 <= x <= duration,
                        1 <= y <= duration - x + 2,
                        segments.len() == row_start(d, x as nat) + y - 1,
                        id_gen.0 == first_id + segments.len(),
                        rows_done(
                            segments@,
                            d,
                            first_id,
                            parent_id,
                            parent_resource@,
                            x as nat,
                            y as nat,
                        ),
                        is_numbered(segments@, first_id, parent_id, parent_resource@, d),
                    decreases duration + 2 - x - y,
                {
                    proof {
                        lemma_row_start_monotone(d, (x + 1) as nat, d + 1);
                    }
                    let id = id_gen.next_id();
                    let precedents = precedents_of(&segments, x);
                    let resource = duplicate(parent_resource);
                    let seg = Segment::new(x, y, precedents, id, parent_id, resource);
                    let ghost before = segments@;
                    segments.push(seg);
                    proof {
                        assert(segments@.take(before.len() as int) =~= before);
                        lemma_ending_at_members(before, x as int);
                        assert forall|i: int| 0 <= i < segments@.len() implies {
                            &&& (#[trigger] segments@[i]).id == first_id + i
                            &&& segments@[i].parent_project == parent_id
                            &&& segments@[i].resource@ == parent_resource@
                            &&& segments@[i].duration == segments@[i].og_duration
                            &&& segments@[i].duration <= d
                            &&& forall|c: int|
                                0 <= c < segments@[i].precedence@.len() ==> first_id <= (
                                #[trigger] segments@[i].precedence@[c]) < first_id + i
                        } by {
                            if i < before.len() {
                                assert(segments@[i] == before[i]);
                            } else {
                                assert forall|c: int|
                                    0 <= c < segments@[i].precedence@.len() implies first_id <= (
                                #[trigger] segments@[i].precedence@[c]) < first_id + i by {
                                    let j = choose|j: int|
                                        0 <= j < before.len() && before[j].id == ending_at(
                                            before,
                                            x as int,
                                        )[c];
                                    assert(before[j].id == first_id + j);
                                }
                            }
                        }
                        lemma_rows_survive_push(
                            before,
                            segments@,
                            d,
                            first_id,
                            parent_id,
                            parent_resource@,
                            x as nat,
                            y as nat,
                        );
                    }
                    y = y + 1;
                }
                x = x + 1;
            }
        }
        segments
    }

    /// An activity whose segments are appended to `arena`. The activity
    /// names them by the positions that they take there.
    pub fn new(
        duration: usize,
        id: usize,
        resource: Vec<usize>,
        precedence: Vec<usize>,
        id_gen: &mut IdGenerator,
        arena: &mut Vec<Segment>,
    ) -> (project: Self)
        requires
            duration < usize::MAX,
            old(id_gen).0 + segment_total(duration as nat) <= usize::MAX,
            old(arena).len() + segment_total(duration as nat) <= usize::MAX,
        ensures
            project.duration == duration,
            project.id == id,
            project.resource == resource,
            project.precedence == precedence,
            project.segments@ == Seq::new(
                segment_total(duration as nat),
                |k: int| (old(arena).len() + k) as usize,
            ),
            final(arena)@.take(old(arena).len() as int) == old(arena)@,
            final(arena).len() == old(arena).len() + segment_total(duration as nat),
            is_decomposition(
                final(arena)@.skip(old(arena).len() as int),
                duration as nat,
                old(id_gen).0 as int,
                id,
                resource@,
            ),
            final(id_gen).0 == old(id_gen).0 + segment_total(duration as nat),
            is_numbered(
                final(arena)@.skip(old(arena).len() as int),
                old(id_gen).0 as int,
                id,
                resource@,
                duration as nat,
            ),
            has_layout(members(final(arena)@, project.segments@), duration as nat, id),
    {
        let mut generated = Project::generate_segments(id, id_gen, &resource, duration);
        let ghost fresh = generated@;
        let base = arena.len();
        let count = generated.len();
        arena.append(&mut generated);
        assert(arena@.take(base as int) =~= old(arena)@);
        assert(arena@.skip(base as int) =~= fresh);
        let mut segments: Vec<usize> = Vec::new();
        let mut k: usize = 0;
        while k < count
            invariant
                k <= count,
                base + count <= usize::MAX,
                segments@ == Seq::new(k as nat, |c: int| (base + c) as usize),
            decreases count - k,
        {
            segments.push(base + k);
            assert(segments@ =~= Seq::new((k + 1) as nat, |c: int| (base + c) as usize));
            k = k + 1;
        }
        proof {
            lemma_decomposition_has_layout(
                fresh,
                duration as nat,
                old(id_gen).0 as int,
                id,
                resource@,
            );
            assert(members(arena@, segments@) =~= fresh);
        }
        Project { duration, id, resource, precedence, segments }
    }

    /// A copy of the activity.
    pub fn duplicate(&self) -> (copy: Self)
        ensures
            copy.duration == self.duration,
            copy.id == self.id,
            copy.resource@ == self.resource@,
            copy.precedence@ == self.precedence@,
            copy.segments@ == self.segments@,
    {
        Project {
            duration: self.duration,
            id: self.id,
            resource: duplicate(&self.resource),
            precedence: duplicate(&self.precedence),
            segments: duplicate(&self.segments),
        }
    }

    /// Records `other` as a direct predecessor, by its id, which is taken
    /// for its number in the list of activities.
    pub fn add_presedence(&mut self, other: &Project)
        ensures
            final(self).precedence@ == old(self).precedence@.push(other.id),
            *final(self) == (Project { precedence: final(self).precedence, ..*old(self) }),
    {
        self.precedence.push(other.id);
    }

    /// The segments that end with the activity.
    pub fn get_last_segments(&self, arena: &Vec<Segment>) -> (last: Vec<usize>)
        requires
            all_within(self.segments@, arena@.len()),
        ensures
            last@ == chosen(
                arena@,
                self.segments@,
                Choice::Last { project: self.id, duration: self.duration },
                self.segments@.len(),
            ),
            forall|k: int|
                0 <= k < last@.len() ==> (#[trigger] last@[k]) < arena@.len() && chooses(
                    Choice::Last { project: self.id, duration: self.duration },
                    arena@[last@[k] as int],
                ),
    {
        select(arena, &self.segments, Choice::Last { project: self.id, duration: self.duration })
    }

    /// The segments that begin with the activity.
    pub fn get_first_segments(&self, arena: &Vec<Segment>) -> (first: Vec<usize>)
        requires
            all_within(self.segments@, arena@.len()),
        ensures
            first@ == chosen(
                arena@,
                self.segments@,
                Choice::First { project: self.id },
                self.segments@.len(),
            ),
            forall|k: int|
                0 <= k < first@.len() ==> (#[trigger] first@[k]) < arena@.len() && chooses(
                    Choice::First { project: self.id },
                    arena@[first@[k] as int],
                ),
    {
        select(arena, &self.segments, Choice::First { project: self.id })
    }

    /// Makes the last segments of every direct predecessor predecessors of
    /// every first segment of this activity. Nothing else of a segment
    /// changes.
    pub fn link_with_precedents(&self, projects: &Vec<Project>, arena: &mut Vec<Segment>)
        requires
            all_within(self.segments@, old(arena)@.len()),
            forall|k: int|
                0 <= k < self.precedence@.len() ==> {
                    &&& 1 <= (#[trigger] self.precedence@[k]) <= projects@.len()
                    &&& projects@[self.precedence@[k] - 1].id != self.id
                    &&& all_within(projects@[self.precedence@[k] - 1].segments@, old(arena)@.len())
                },
        ensures
            same_but_precedence(old(arena)@, final(arena)@),
            forall|s: int|
                0 <= s < old(arena)@.len() ==> (#[trigger] final(arena)@[s]).precedence@
                    == linked_precedence(
                    old(arena)@[s].precedence@,
                    old(arena)@,
                    chosen(
                        old(arena)@,
                        self.segments@,
                        Choice::First { project: self.id },
                        self.segments@.len(),
                    ),
                    projects@,
                    self.precedence@,
                    s,
                    self.precedence@.len(),
                ),
    {
        let our = self.get_first_segments(arena);
        let ghost start = arena@;
        let mut j: usize = 0;
        while j < self.precedence.len()
            invariant
                j <= self.precedence.len(),
                start == old(arena)@,
                all_within(self.segments@, start.len()),
                forall|k: int|
                    0 <= k < self.precedence@.len() ==> {
                        &&& 1 <= (#[trigger] self.precedence@[k]) <= projects@.len()
                        &&& projects@[self.precedence@[k] - 1].id != self.id
                        &&& all_within(projects@[self.precedence@[k] - 1].segments@, start.len())
                    },
                our@ == chosen(
                    start,
                    self.segments@,
                    Choice::First { project: self.id },
                    self.segments@.len(),
                ),
                forall|c: int|
                    0 <= c < our@.len() ==> (#[trigger] our@[c]) < start.len() && chooses(
                        Choice::First { project: self.id },
                        start[our@[c] as int],
                    ),
                same_but_precedence(start, arena@),
                forall|s: int|
                    0 <= s < start.len() ==> (#[trigger] arena@[s]).precedence@
                        == linked_precedence(
                        start[s].precedence@,
                        start,
                        our@,
                        projects@,
                        self.precedence@,
                        s,
                        j as nat,
                    ),
            decreases self.precedence.len() - j,
        {
            let precedent = &projects[self.precedence[j] - 1];
            let theirs = precedent.get_last_segments(arena);
            let ghost rule = Choice::Last { project: precedent.id, duration: precedent.duration };
            let ghost middle = arena@;
            proof {
                lemma_chosen_ignores_precedence(
                    start,
                    middle,
                    precedent.segments@,
                    rule,
                    precedent.segments@.len(),
                );
                lemma_ids_ignore_precedence(start, middle, theirs@, theirs@.len());
                assert forall|f: int, l: int| 0 <= f < our@.len() && 0 <= l < theirs@.len() implies middle[(#[trigger] our@[f]) as int].parent_project
                    != middle[(#[trigger] theirs@[l]) as int].parent_project by {
                    let a = our@[f] as int;
                    let b = theirs@[l] as int;
                    assert(middle[a] == (Segment { precedence: middle[a].precedence, ..start[a] }));
                    assert(middle[b] == (Segment { precedence: middle[b].precedence, ..start[b] }));
                    assert(chooses(Choice::First { project: self.id }, start[a]));
                    assert(chooses(rule, middle[b]));
                }
            }
            Segment::precedence_link(arena, &theirs, &our);
            proof {
                assert forall|s: int| 0 <= s < start.len() implies (#[trigger] arena@[s])
                    == (Segment { precedence: arena@[s].precedence, ..start[s] }) by {
                    assert(middle[s] == (Segment { precedence: middle[s].precedence, ..start[s] }));
                }
            }
            j = j + 1;
        }
    }

    /// The number of the activity.
    pub fn id(&self) -> (id: usize)
        ensures
            id == self.id,
    {
        self.id
    }

    /// The numbers of the direct predecessors.
    pub fn precedence(&self) -> (precedence: &Vec<usize>)
        ensures
            precedence == self.precedence,
    {
        &self.precedence
    }

    /// The places of the activity's segments in the list of segments.
    pub fn segments(&self) -> (segments: &Vec<usize>)
        ensures
            segments == self.segments,
    {
        &self.segments
    }

    /// The duration of the activity in time units.
    pub fn duration(&self) -> (duration: usize)
        ensures
            duration == self.duration,
    {
        self.duration
    }

    /// Appends the start literals of the segments named by `picks`.
    fn push_start_literals(arena: &Vec<Segment>, picks: &Vec<usize>, clause: &mut Vec<i64>)
        requires
            all_within(picks@, arena@.len()),
            forall|k: int|
                0 <= k < picks@.len() ==> start_ids_fit(
                    arena@[(#[trigger] picks@[k]) as int].variables@,
                ),
        ensures
            final(clause)@ == old(clause)@ + joined_literals(arena@, picks@, picks@.len()),
    {
        let mut p: usize = 0;
        assert(clause@ =~= old(clause)@ + joined_literals(arena@, picks@, 0));
        while p < picks.len()
            invariant
                p <= picks.len(),
                all_within(picks@, arena@.len()),
                forall|k: int|
                    0 <= k < picks@.len() ==> start_ids_fit(
                        arena@[(#[trigger] picks@[k]) as int].variables@,
                    ),
                clause@ == old(clause)@ + joined_literals(arena@, picks@, p as nat),
            decreases picks.len() - p,
        {
            let segment = &arena[picks[p]];
            let ghost before = clause@;
            let mut v: usize = 0;
            assert(picks@[p as int] == picks[p as int]);
            while v < segment.variables.len()
                invariant
                    v <= segment.variables.len(),
                    start_ids_fit(segment.variables@),
                    clause@ == before + start_literals(segment.variables@).take(v as int),
                decreases segment.variables.len() - v,
            {
                clause.push(segment.variables[v].id as i64);
                assert(clause@ =~= before + start_literals(segment.variables@).take(v + 1));
                v = v + 1;
            }
            assert(start_literals(segment.variables@).take(segment.variables@.len() as int)
                =~= start_literals(segment.variables@));
            assert(clause@ =~= old(clause)@ + joined_literals(arena@, picks@, (p + 1) as nat));
            p = p + 1;
        }
    }

    /// One hard clause per time unit of the activity: some segment whose
    /// original interval holds that time unit is started at some time. The
    /// clause of time unit `j` stands at position `j - 1`.
    pub fn generate_completion_clauses(&self, arena: &Vec<Segment>) -> (clauses: Vec<Clause>)
        requires
            self.duration < usize::MAX,
            all_within(self.segments@, arena@.len()),
            forall|k: int|
                0 <= k < self.segments@.len() ==> start_ids_fit(
                    arena@[(#[trigger] self.segments@[k]) as int].variables@,
                ),
            forall|k: int, jiffy: usize|
                0 <= k < self.segments@.len() && 1 <= jiffy <= self.duration && #[trigger] chooses(
                    Choice::Covering { jiffy },
                    arena@[self.segments@[k] as int],
                ) ==> arena@[self.segments@[k] as int].variables@.len() > 0,
        ensures
            clauses@.len() == self.duration,
            forall|j: int|
                0 <= j < self.duration ==> (#[trigger] clauses@[j])@ == completion_clause(
                    arena@,
                    self.segments@,
                    (j + 1) as usize,
                ),
    {
        let mut clauses: Vec<Clause> = Vec::new();
        let mut jiffy: usize = 1;
        while jiffy <= self.duration
            invariant
                self.duration < usize::MAX,
                1 <= jiffy <= self.duration + 1,
                all_within(self.segments@, arena@.len()),
                forall|k: int|
                    0 <= k < self.segments@.len() ==> start_ids_fit(
                        arena@[(#[trigger] self.segments@[k]) as int].variables@,
                    ),
                clauses@.len() == jiffy - 1,
                forall|j: int|
                    0 <= j < jiffy - 1 ==> (#[trigger] clauses@[j])@ == completion_clause(
                        arena@,
                        self.segments@,
                        (j + 1) as usize,
                    ),
            decreases self.duration + 1 - jiffy,
        {
            let covering = self.get_segments_for_jiffy(jiffy, arena);
            proof {
                lemma_chosen_from(
                    arena@,
                    self.segments@,
                    Choice::Covering { jiffy },
                    self.segments@.len(),
                );
            }
            let mut jiffy_clause: Vec<i64> = Vec::new();
            Self::push_start_literals(arena, &covering, &mut jiffy_clause);
            assert(jiffy_clause@ =~= completion_clause(arena@, self.segments@, jiffy));
            clauses.push(Clause::new(jiffy_clause));
            jiffy = jiffy + 1;
        }
        clauses
    }

    /// One unit clause per start variable of the activity's segments, segment
    /// by segment: the candidates for the end of the schedule when this
    /// activity is its sink.
    pub fn generate_last_project_segment(&self, arena: &Vec<Segment>) -> (clauses: Vec<Clause>)
        requires
            all_within(self.segments@, arena@.len()),
            forall|k: int|
                0 <= k < self.segments@.len() ==> start_ids_fit(
                    arena@[(#[trigger] self.segments@[k]) as int].variables@,
                ),
        ensures
            clauses@.len() == joined_literals(arena@, self.segments@, self.segments@.len()).len(),
            forall|k: int|
                0 <= k < clauses@.len() ==> (#[trigger] clauses@[k])@ == seq![
                    joined_literals(arena@, self.segments@, self.segments@.len())[k],
                ],
    {
        let mut literals: Vec<i64> = Vec::new();
        Self::push_start_literals(arena, &self.segments, &mut literals);
        assert(literals@ =~= joined_literals(arena@, self.segments@, self.segments@.len()));
        let mut clauses: Vec<Clause> = Vec::new();
        let mut k: usize = 0;
        while k < literals.len()
            invariant
                k <= literals.len(),
                clauses@.len() == k,
                forall|c: int| 0 <= c < k ==> (#[trigger] clauses@[c])@ == seq![literals@[c]],
            decreases literals.len() - k,
        {
            let mut unit: Vec<i64> = Vec::new();
            unit.push(literals[k]);
            assert(unit@ =~= seq![literals@[k as int]]);
            clauses.push(Clause::new(unit));
            k = k + 1;
        }
        clauses
    }

    /// The segments whose original interval, from the offset up to but not
    /// including the offset plus the span, holds the time unit `jiffy`.
    pub fn get_segments_for_jiffy(&self, jiffy: usize, arena: &Vec<Segment>) -> (covering: Vec<
        usize,
    >)
        requires
            all_within(self.segments@, arena@.len()),
        ensures
            covering@ == chosen(
                arena@,
                self.segments@,
                Choice::Covering { jiffy },
                self.segments@.len(),
            ),
            forall|k: int|
                0 <= k < covering@.len() ==> (#[trigger] covering@[k]) < arena@.len() && chooses(
                    Choice::Covering { jiffy },
                    arena@[covering@[k] as int],
                ),
    {
        select(arena, &self.segments, Choice::Covering { jiffy })
    }
}

/// Whatever is chosen names a segment of the list when every candidate does.
pub proof fn lemma_chosen_within(arena: Seq<Segment>, ids: Seq<usize>, choice: Choice, count: nat)
    requires
        count <= ids.len(),
        all_within(ids, arena.len()),
    ensures
        all_within(chosen(arena, ids, choice, count), arena.len()),
    decreases count,
{
    if count > 0 {
        lemma_chosen_within(arena, ids, choice, (count - 1) as nat);
    }
}

/// Whatever is chosen was among the candidates.
proof fn lemma_chosen_from(arena: Seq<Segment>, ids: Seq<usize>, choice: Choice, count: nat)
    requires
        count <= ids.len(),
    ensures
        forall|c: int|
            0 <= c < chosen(arena, ids, choice, count).len() ==> exists|k: int|
                0 <= k < count && ids[k] == #[trigger] chosen(arena, ids, choice, count)[c],
    decreases count,
{
    if count > 0 {
        lemma_chosen_from(arena, ids, choice, (count - 1) as nat);
        let rest = chosen(arena, ids, choice, (count - 1) as nat);
        let all = chosen(arena, ids, choice, count);
        assert forall|c: int| 0 <= c < all.len() implies exists|k: int|
            0 <= k < count && ids[k] == #[trigger] all[c] by {
            if c < rest.len() {
                let k = choose|k: int| 0 <= k < count - 1 && ids[k] == rest[c];
                assert(ids[k] == all[c]);
            } else {
                assert(ids[count - 1] == all[c]);
            }
        }
    }
}

} // verus!
