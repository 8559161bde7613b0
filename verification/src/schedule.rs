//! A whole instance: its activities, their segments, and the capacities of
//! its renewable resources; and the construction of the precedence graph
//! over the segments.

use crate::encode::{is_stable_order, stable_order};
use crate::id_generator::IdGenerator;
use crate::project::{
    all_within, chosen, is_decomposition, lemma_segment_total, linked_precedence,
    same_but_precedence, segment_total, Choice, Project,
};
use crate::reader::{Instance, InstanceView};
use crate::sat_seg_var::duplicate;
use crate::segment::{extended, ids_of, occurrences, Segment};
use vstd::prelude::*;

verus! {

/// An instance. The activities are numbered from 1 in the order of
/// `projects`; `segments` holds the segments of all of them, each at the
/// position of its id.
#[derive(Debug, Clone)]
pub struct Schedule {
    pub projects: Vec<Project>,
    pub segments: Vec<Segment>,
    pub resources: Vec<usize>,
}

/// The activity numbers that row `row` of a successor table records as
/// predecessors of activity `j + 1`: `id` once for each of the first `count`
/// entries that names it.
pub open spec fn row_hits(row: Seq<usize>, j: int, id: usize, count: nat) -> Seq<usize>
    decreases count,
{
    if count == 0 {
        Seq::empty()
    } else {
        let rest = row_hits(row, j, id, (count - 1) as nat);
        if row[count - 1] - 1 == j {
            rest.push(id)
        } else {
            rest
        }
    }
}

/// The predecessors that the first `rows` rows of a successor table give to
/// the activity at position `j`: row `i` lists the successors of the
/// activity at position `i`, by number, and makes that activity, named by
/// `ids[i]`, a predecessor of each.
pub open spec fn recorded_predecessors(
    successors: Seq<Vec<usize>>,
    ids: Seq<usize>,
    j: int,
    rows: nat,
) -> Seq<usize>
    decreases rows,
{
    if rows == 0 {
        Seq::empty()
    } else {
        recorded_predecessors(successors, ids, j, (rows - 1) as nat) + row_hits(
            successors[rows - 1]@,
            j,
            ids[rows - 1],
            successors[rows - 1]@.len(),
        )
    }
}

/// The activity numbers `1, 2, ...` up to `count`.
pub open spec fn numbers(count: nat) -> Seq<usize> {
    Seq::new(count, |k: int| (k + 1) as usize)
}

/// `after` differs from `before` in lists of predecessors only.
pub open spec fn same_but_predecessors(before: Seq<Project>, after: Seq<Project>) -> bool {
    &&& after.len() == before.len()
    &&& forall|j: int|
        0 <= j < before.len() ==> (#[trigger] after[j]) == (Project {
            precedence: after[j].precedence,
            ..before[j]
        })
}

/// Every entry of the successor table is the number of an activity.
pub open spec fn names_activities(successors: Seq<Vec<usize>>, count: nat) -> bool {
    forall|i: int, c: int|
        0 <= i < successors.len() && 0 <= c < successors[i]@.len() ==> 1 <= (
        #[trigger] successors[i]@[c]) <= count
}

/// The predecessors of segment `s` after the first `count` activities have
/// been linked with their predecessors, one activity after the other.
pub open spec fn all_linked(arena: Seq<Segment>, projects: Seq<Project>, s: int, count: nat) -> Seq<
    usize,
>
    decreases count,
{
    if count == 0 {
        arena[s].precedence@
    } else {
        let project = projects[count - 1];
        linked_precedence(
            all_linked(arena, projects, s, (count - 1) as nat),
            arena,
            chosen(
                arena,
                project.segments@,
                Choice::First { project: project.id },
                project.segments@.len(),
            ),
            projects,
            project.precedence@,
            s,
            project.precedence@.len(),
        )
    }
}

/// Every activity names segments of the list only, and its predecessors are
/// other activities of the list.
pub open spec fn can_link(projects: Seq<Project>, bound: nat) -> bool {
    forall|j: int|
        0 <= j < projects.len() ==> {
            &&& all_within((#[trigger] projects[j]).segments@, bound)
            &&& forall|k: int|
                0 <= k < projects[j].precedence@.len() ==> {
                    &&& 1 <= (#[trigger] projects[j].precedence@[k]) <= projects.len()
                    &&& projects[projects[j].precedence@[k] - 1].id != projects[j].id
                }
        }
}

/// What the linking of one activity adds does not depend on the lists of
/// predecessors that the segments have at that moment.
proof fn lemma_linked_ignores_precedence(
    before: Seq<Segment>,
    after: Seq<Segment>,
    base: Seq<usize>,
    ours: Seq<usize>,
    projects: Seq<Project>,
    preds: Seq<usize>,
    s: int,
    count: nat,
)
    requires
        same_but_precedence(before, after),
        count <= preds.len(),
        forall|k: int|
            0 <= k < preds.len() ==> 1 <= (#[trigger] preds[k]) <= projects.len() && all_within(
                projects[preds[k] - 1].segments@,
                before.len(),
            ),
    ensures
        linked_precedence(base, after, ours, projects, preds, s, count) == linked_precedence(
            base,
            before,
            ours,
            projects,
            preds,
            s,
            count,
        ),
    decreases count,
{
    if count > 0 {
        lemma_linked_ignores_precedence(
            before,
            after,
            base,
            ours,
            projects,
            preds,
            s,
            (count - 1) as nat,
        );
        let pred = projects[preds[count - 1] - 1];
        let rule = Choice::Last { project: pred.id, duration: pred.duration };
        crate::project::lemma_chosen_ignores_precedence(
            before,
            after,
            pred.segments@,
            rule,
            pred.segments@.len(),
        );
        let theirs = chosen(before, pred.segments@, rule, pred.segments@.len());
        crate::project::lemma_chosen_within(before, pred.segments@, rule, pred.segments@.len());
        crate::project::lemma_ids_ignore_precedence(before, after, theirs, theirs.len());
    }
}

/// Records every activity as a predecessor of each of its successors: row
/// `i` of `successors` lists, by number, the successors of the activity at
/// position `i`, and that activity is recorded by its own number, `i + 1`.
pub fn connect_precedence(projects: &mut Vec<Project>, successors: &Vec<Vec<usize>>)
    requires
        successors@.len() <= old(projects)@.len(),
        names_activities(successors@, old(projects)@.len() as nat),
    ensures
        same_but_predecessors(old(projects)@, final(projects)@),
        forall|j: int|
            0 <= j < old(projects)@.len() ==> (#[trigger] final(projects)@[j]).precedence@ == old(projects)@[j].precedence@ + recorded_predecessors(
                successors@,
                numbers(old(projects)@.len()),
                j,
                successors@.len(),
            ),
{
    let ghost start = projects@;
    let ghost ids = numbers(start.len());
    let mut index: usize = 0;
    while index < successors.len()
        invariant
            start == old(projects)@,
            ids == numbers(start.len()),
            index <= successors@.len(),
            successors@.len() <= start.len(),
            names_activities(successors@, start.len() as nat),
            same_but_predecessors(start, projects@),
            forall|j: int|
                0 <= j < start.len() ==> (#[trigger] projects@[j]).precedence@
                    == start[j].precedence@ + recorded_predecessors(
                    successors@,
                    ids,
                    j,
                    index as nat,
                ),
        decreases successors@.len() - index,
    {
        let precedent_id = index + 1;
        assert(precedent_id == ids[index as int]);
        let row = &successors[index];
        let ghost before = projects@;
        let mut c: usize = 0;
        while c < row.len()
            invariant
                row == successors@[index as int],
                c <= row@.len(),
                index < successors@.len(),
                successors@.len() <= start.len(),
                names_activities(successors@, start.len() as nat),
                same_but_predecessors(start, projects@),
                same_but_predecessors(start, before),
                forall|j: int|
                    0 <= j < start.len() ==> (#[trigger] projects@[j]).precedence@
                        == before[j].precedence@ + row_hits(row@, j, precedent_id, c as nat),
            decreases row@.len() - c,
        {
            let successor = row[c];
            assert(1 <= successors@[index as int]@[c as int] <= start.len());
            let ghost middle = projects@;
            projects[successor - 1].precedence.push(precedent_id);
            proof {
                assert forall|j: int| 0 <= j < start.len() implies (#[trigger] projects@[j])
                    == (Project { precedence: projects@[j].precedence, ..start[j] }) by {
                    assert(middle[j] == (Project { precedence: middle[j].precedence, ..start[j] }));
                }
                assert forall|j: int| 0 <= j < start.len() implies (
                #[trigger] projects@[j]).precedence@ == before[j].precedence@ + row_hits(
                    row@,
                    j,
                    precedent_id,
                    (c + 1) as nat,
                ) by {
                    assert(middle[j].precedence@ == before[j].precedence@ + row_hits(
                        row@,
                        j,
                        precedent_id,
                        c as nat,
                    ));
                    if j == successor - 1 {
                        assert(projects@[j].precedence@ =~= before[j].precedence@ + row_hits(
                            row@,
                            j,
                            precedent_id,
                            (c + 1) as nat,
                        ));
                    }
                }
            }
            c = c + 1;
        }
        proof {
            assert forall|j: int| 0 <= j < start.len() implies (#[trigger] projects@[j]).precedence@
                == start[j].precedence@ + recorded_predecessors(
                successors@,
                ids,
                j,
                (index + 1) as nat,
            ) by {
                assert(before[j].precedence@ == start[j].precedence@ + recorded_predecessors(
                    successors@,
                    ids,
                    j,
                    index as nat,
                ));
                assert(projects@[j].precedence@ =~= start[j].precedence@ + recorded_predecessors(
                    successors@,
                    ids,
                    j,
                    (index + 1) as nat,
                ));
            }
        }
        index = index + 1;
    }
}

/// Links every activity with its predecessors, one activity after the
/// other: the last segments of each predecessor become predecessors of the
/// activity's first segments. Nothing else of a segment changes.
pub fn link_with_precedence(projects: &Vec<Project>, arena: &mut Vec<Segment>)
    requires
        can_link(projects@, old(arena)@.len()),
    ensures
        same_but_precedence(old(arena)@, final(arena)@),
        forall|s: int|
            0 <= s < old(arena)@.len() ==> (#[trigger] final(arena)@[s]).precedence@ == all_linked(
                old(arena)@,
                projects@,
                s,
                projects@.len(),
            ),
{
    let ghost start = arena@;
    let mut m: usize = 0;
    while m < projects.len()
        invariant
            start == old(arena)@,
            m <= projects@.len(),
            can_link(projects@, start.len()),
            same_but_precedence(start, arena@),
            forall|s: int|
                0 <= s < start.len() ==> (#[trigger] arena@[s]).precedence@ == all_linked(
                    start,
                    projects@,
                    s,
                    m as nat,
                ),
        decreases projects@.len() - m,
    {
        let project = &projects[m];
        let ghost middle = arena@;
        proof {
            assert(all_within(projects@[m as int].segments@, start.len()));
            assert forall|k: int| 0 <= k < project.precedence@.len() implies {
                &&& 1 <= (#[trigger] project.precedence@[k]) <= projects@.len()
                &&& projects@[project.precedence@[k] - 1].id != project.id
                &&& all_within(projects@[project.precedence@[k] - 1].segments@, middle.len())
            } by {
                let p = project.precedence@[k];
                assert(1 <= projects@[m as int].precedence@[k] <= projects@.len());
                assert(all_within(projects@[p - 1].segments@, start.len()));
            }
        }
        project.link_with_precedents(projects, arena);
        proof {
            let rule = Choice::First { project: project.id };
            crate::project::lemma_chosen_ignores_precedence(
                start,
                middle,
                project.segments@,
                rule,
                project.segments@.len(),
            );
            let ours = chosen(start, project.segments@, rule, project.segments@.len());
            assert forall|s: int| 0 <= s < start.len() implies (#[trigger] arena@[s])
                == (Segment { precedence: arena@[s].precedence, ..start[s] }) by {
                assert(middle[s] == (Segment { precedence: middle[s].precedence, ..start[s] }));
            }
            assert forall|s: int| 0 <= s < start.len() implies (#[trigger] arena@[s]).precedence@
                == all_linked(start, projects@, s, (m + 1) as nat) by {
                assert forall|k: int| 0 <= k < project.precedence@.len() implies 1 <= (
                #[trigger] project.precedence@[k]) <= projects@.len() && all_within(
                    projects@[project.precedence@[k] - 1].segments@,
                    start.len(),
                ) by {
                    let p = project.precedence@[k];
                    assert(1 <= projects@[m as int].precedence@[k] <= projects@.len());
                    assert(all_within(projects@[p - 1].segments@, start.len()));
                }
                lemma_linked_ignores_precedence(
                    start,
                    middle,
                    middle[s].precedence@,
                    ours,
                    projects@,
                    project.precedence@,
                    s,
                    project.precedence@.len(),
                );
            }
        }
        m = m + 1;
    }
}

/// The number of segments of the first `k` activities.
pub open spec fn offset(durations: Seq<usize>, k: nat) -> nat
    decreases k,
{
    if k == 0 {
        0
    } else {
        offset(durations, (k - 1) as nat) + segment_total(durations[k - 1] as nat)
    }
}

/// The smallest of three lengths.
pub open spec fn shortest(a: nat, b: nat, c: nat) -> nat {
    if a <= b && a <= c {
        a
    } else if b <= c {
        b
    } else {
        c
    }
}

/// The keys by which the activities are put in order: their ids.
pub open spec fn id_keys(projs: Seq<usize>, count: nat) -> Seq<(bool, usize, i64)> {
    Seq::new(count, |q: int| (false, projs[q], 0i64))
}

/// No two of the first `count` activities have the same id.
pub open spec fn ids_differ(projs: Seq<usize>, count: nat) -> bool {
    forall|a: int, b: int| 0 <= a < b < count ==> #[trigger] projs[a] != #[trigger] projs[b]
}

/// The places in the list of segments that the segments of the activity
/// given at position `q` take: those behind the segments of the activities
/// given before it.
pub open spec fn places_of(durations: Seq<usize>, q: int) -> Seq<usize> {
    Seq::new(
        segment_total(durations[q] as nat),
        |c: int| (offset(durations, q as nat) + c) as usize,
    )
}

/// The activity given at position `q` has been made, without predecessors:
/// with its id, its duration, its demands and the places of its segments.
pub open spec fn activity_made(
    created: Seq<Project>,
    resources: Seq<Vec<usize>>,
    durations: Seq<usize>,
    projs: Seq<usize>,
    q: int,
) -> bool {
    &&& created[q].duration == durations[q]
    &&& created[q].id == projs[q]
    &&& created[q].resource@ == resources[q]@
    &&& created[q].precedence@.len() == 0
    &&& created[q].segments@ == places_of(durations, q)
}

/// The decomposition of the activity given at position `q` stands in
/// `arena` behind those of the activities given before it, numbered on from
/// theirs.
pub open spec fn decomposed(
    arena: Seq<Segment>,
    resources: Seq<Vec<usize>>,
    durations: Seq<usize>,
    projs: Seq<usize>,
    q: int,
) -> bool {
    is_decomposition(
        arena.subrange(
            offset(durations, q as nat) as int,
            offset(durations, (q + 1) as nat) as int,
        ),
        durations[q] as nat,
        offset(durations, q as nat) as int,
        projs[q],
        resources[q]@,
    )
}

/// The activity at position `k` of `projects` is the one given at position
/// `order[k]`: it has that activity's id, duration and demands and names the
/// places of its segments.
pub open spec fn activity_built(
    projects: Seq<Project>,
    resources: Seq<Vec<usize>>,
    durations: Seq<usize>,
    projs: Seq<usize>,
    order: Seq<usize>,
    k: int,
) -> bool {
    &&& projects[k].duration == durations[order[k] as int]
    &&& projects[k].id == projs[order[k] as int]
    &&& projects[k].resource@ == resources[order[k] as int]@
    &&& projects[k].segments@ == places_of(durations, order[k] as int)
}

/// The first `count` activities that were given stand in `projects` by
/// rising id, which is the order `order`, and `arena` holds their
/// decompositions one after the other in the order in which they were given,
/// numbered from 0.
pub open spec fn is_built(
    projects: Seq<Project>,
    arena: Seq<Segment>,
    resources: Seq<Vec<usize>>,
    durations: Seq<usize>,
    projs: Seq<usize>,
    order: Seq<usize>,
    count: nat,
) -> bool {
    &&& projects.len() == count
    &&& arena.len() == offset(durations, count)
    &&& is_stable_order(id_keys(projs, count), order)
    &&& forall|k: int|
        0 <= k < count ==> #[trigger] activity_built(
            projects,
            resources,
            durations,
            projs,
            order,
            k,
        )
    &&& forall|q: int|
        0 <= q < count ==> #[trigger] decomposed(arena, resources, durations, projs, q)
}

/// Every segment stands at the position of its id, and its predecessors
/// are segments of the list.
pub open spec fn is_closed(arena: Seq<Segment>) -> bool {
    forall|i: int|
        0 <= i < arena.len() ==> {
            &&& (#[trigger] arena[i]).id == i
            &&& all_within(arena[i].precedence@, arena.len())
        }
}

/// One of the first `count` activities demands what the segment demands.
pub open spec fn demanded_by(segment: Segment, resources: Seq<Vec<usize>>, count: nat) -> bool {
    exists|q: int| 0 <= q < count && (#[trigger] resources[q])@ == segment.resource@
}

/// Every segment of the list demands what one of the first `count`
/// activities demands.
pub open spec fn is_covered(arena: Seq<Segment>, resources: Seq<Vec<usize>>, count: nat) -> bool {
    forall|s: int| 0 <= s < arena.len() ==> demanded_by(#[trigger] arena[s], resources, count)
}

/// More activities have more segments.
pub proof fn lemma_offset_monotone(durations: Seq<usize>, a: nat, b: nat)
    requires
        a <= b,
    ensures
        offset(durations, a) <= offset(durations, b),
    decreases b,
{
    if a < b {
        lemma_offset_monotone(durations, a, (b - 1) as nat);
    }
}

/// What a row of the successor table records names the activity of the row.
proof fn lemma_row_hits(row: Seq<usize>, j: int, id: usize, count: nat)
    requires
        count <= row.len(),
    ensures
        forall|c: int|
            0 <= c < row_hits(row, j, id, count).len() ==> #[trigger] row_hits(row, j, id, count)[c]
                == id,
        row_hits(row, j, id, count).len() > 0 ==> exists|c: int|
            0 <= c < count && #[trigger] row[c] - 1 == j,
    decreases count,
{
    if count > 0 {
        lemma_row_hits(row, j, id, (count - 1) as nat);
        let rest = row_hits(row, j, id, (count - 1) as nat);
        let all = row_hits(row, j, id, count);
        assert forall|c: int| 0 <= c < all.len() implies #[trigger] all[c] == id by {
            if c < rest.len() {
                assert(all[c] == rest[c]);
            }
        }
        if row[count - 1] - 1 == j {
        } else if row_hits(row, j, id, count).len() > 0 {
            let c = choose|c: int| 0 <= c < count - 1 && #[trigger] row[c] - 1 == j;
            assert(row[c] - 1 == j);
        }
    }
}

/// Entry `c` of row `i` of the successor table makes `e` a predecessor of
/// the activity at position `j`.
pub open spec fn records(
    successors: Seq<Vec<usize>>,
    ids: Seq<usize>,
    j: int,
    e: usize,
    i: int,
    c: int,
) -> bool {
    &&& 0 <= i < successors.len()
    &&& 0 <= c < successors[i]@.len()
    &&& successors[i]@[c] - 1 == j
    &&& ids[i] == e
}

/// Some entry of the first `rows` rows makes `e` a predecessor of the
/// activity at position `j`.
pub open spec fn recorded_by(
    successors: Seq<Vec<usize>>,
    ids: Seq<usize>,
    j: int,
    e: usize,
    rows: nat,
) -> bool {
    exists|i: int, c: int| i < rows && #[trigger] records(successors, ids, j, e, i, c)
}

/// Every recorded predecessor of an activity is an activity that lists it
/// as a successor.
pub proof fn lemma_recorded_predecessors(
    successors: Seq<Vec<usize>>,
    ids: Seq<usize>,
    j: int,
    rows: nat,
)
    requires
        rows <= successors.len(),
        rows <= ids.len(),
    ensures
        forall|k: int|
            0 <= k < recorded_predecessors(successors, ids, j, rows).len() ==> recorded_by(
                successors,
                ids,
                j,
                #[trigger] recorded_predecessors(successors, ids, j, rows)[k],
                rows,
            ),
    decreases rows,
{
    if rows > 0 {
        lemma_recorded_predecessors(successors, ids, j, (rows - 1) as nat);
        let row = successors[rows - 1]@;
        lemma_row_hits(row, j, ids[rows - 1], row.len());
        let earlier = recorded_predecessors(successors, ids, j, (rows - 1) as nat);
        let all = recorded_predecessors(successors, ids, j, rows);
        assert forall|k: int| 0 <= k < all.len() implies recorded_by(
            successors,
            ids,
            j,
            #[trigger] all[k],
            rows,
        ) by {
            if k < earlier.len() {
                assert(all[k] == earlier[k]);
                assert(recorded_by(successors, ids, j, earlier[k], (rows - 1) as nat));
                let (i, c) = choose|i: int, c: int|
                    i < rows - 1 && #[trigger] records(successors, ids, j, earlier[k], i, c);
                assert(records(successors, ids, j, all[k], i, c));
            } else {
                let hits = row_hits(row, j, ids[rows - 1], row.len());
                assert(all[k] == hits[k - earlier.len()]);
                let c = choose|c: int| 0 <= c < row.len() && #[trigger] row[c] - 1 == j;
                assert(records(successors, ids, j, all[k], rows - 1, c));
            }
        }
    }
}

/// Linking appends ids of segments of the list, so a closed list stays
/// closed.
proof fn lemma_extended_within(base: Seq<usize>, addition: Seq<usize>, times: nat, bound: nat)
    requires
        all_within(base, bound),
        all_within(addition, bound),
    ensures
        all_within(extended(base, addition, times), bound),
    decreases times,
{
    if times > 0 {
        lemma_extended_within(base, addition, (times - 1) as nat, bound);
    }
}

proof fn lemma_ids_within(arena: Seq<Segment>, picks: Seq<usize>, count: nat)
    requires
        count <= picks.len(),
        all_within(picks, arena.len()),
        forall|i: int| 0 <= i < arena.len() ==> (#[trigger] arena[i]).id == i,
    ensures
        all_within(ids_of(arena, picks, count), arena.len()),
    decreases count,
{
    if count > 0 {
        lemma_ids_within(arena, picks, (count - 1) as nat);
    }
}

proof fn lemma_linked_within(
    base: Seq<usize>,
    arena: Seq<Segment>,
    ours: Seq<usize>,
    projects: Seq<Project>,
    preds: Seq<usize>,
    s: int,
    count: nat,
)
    requires
        count <= preds.len(),
        all_within(base, arena.len()),
        forall|i: int| 0 <= i < arena.len() ==> (#[trigger] arena[i]).id == i,
        forall|k: int|
            0 <= k < preds.len() ==> 1 <= (#[trigger] preds[k]) <= projects.len() && all_within(
                projects[preds[k] - 1].segments@,
                arena.len(),
            ),
    ensures
        all_within(linked_precedence(base, arena, ours, projects, preds, s, count), arena.len()),
    decreases count,
{
    if count > 0 {
        lemma_linked_within(base, arena, ours, projects, preds, s, (count - 1) as nat);
        let pred = projects[preds[count - 1] - 1];
        let rule = Choice::Last { project: pred.id, duration: pred.duration };
        let theirs = chosen(arena, pred.segments@, rule, pred.segments@.len());
        crate::project::lemma_chosen_within(arena, pred.segments@, rule, pred.segments@.len());
        lemma_ids_within(arena, theirs, theirs.len());
        lemma_extended_within(
            linked_precedence(base, arena, ours, projects, preds, s, (count - 1) as nat),
            ids_of(arena, theirs, theirs.len()),
            occurrences(ours, s, ours.len()),
            arena.len(),
        );
    }
}

/// Linking the activities of a closed list of segments leaves it closed.
pub proof fn lemma_all_linked_within(
    arena: Seq<Segment>,
    projects: Seq<Project>,
    s: int,
    count: nat,
)
    requires
        0 <= s < arena.len(),
        count <= projects.len(),
        is_closed(arena),
        can_link(projects, arena.len()),
    ensures
        all_within(all_linked(arena, projects, s, count), arena.len()),
    decreases count,
{
    if count > 0 {
        lemma_all_linked_within(arena, projects, s, (count - 1) as nat);
        let project = projects[count - 1];
        assert forall|k: int| 0 <= k < project.precedence@.len() implies 1 <= (
        #[trigger] project.precedence@[k]) <= projects.len() && all_within(
            projects[project.precedence@[k] - 1].segments@,
            arena.len(),
        ) by {
            let p = project.precedence@[k];
            assert(1 <= projects[count - 1].precedence@[k] <= projects.len());
            assert(all_within(projects[p - 1].segments@, arena.len()));
        }
        lemma_linked_within(
            all_linked(arena, projects, s, (count - 1) as nat),
            arena,
            chosen(
                arena,
                project.segments@,
                Choice::First { project: project.id },
                project.segments@.len(),
            ),
            projects,
            project.precedence@,
            s,
            project.precedence@.len(),
        );
    } else {
        assert(all_within(arena[s].precedence@, arena.len()));
    }
}

/// `projects` and `arena` are the first `count` activities of the input with
/// their precedence wired: before any linking the segments were the
/// decompositions of the activities, in the order in which they were given;
/// the activities stand by rising id; every activity has the predecessors
/// that the successor table records for it, by their numbers in that order;
/// and every segment has, behind the predecessors of its decomposition,
/// those that the linking of the activities, one after the other, gave it.
pub open spec fn is_wired(
    projects: Seq<Project>,
    arena: Seq<Segment>,
    resources: Seq<Vec<usize>>,
    successors: Seq<Vec<usize>>,
    projs: Seq<usize>,
    durations: Seq<usize>,
    count: nat,
) -> bool {
    &&& forall|j: int|
        0 <= j < count ==> (#[trigger] projects[j]).precedence@ == recorded_predecessors(
            successors,
            numbers(count),
            j,
            successors.len(),
        )
    &&& exists|unlinked: Seq<Segment>, order: Seq<usize>|
        {
            &&& #[trigger] is_built(projects, unlinked, resources, durations, projs, order, count)
            &&& same_but_precedence(unlinked, arena)
            &&& forall|s: int|
                0 <= s < arena.len() ==> (#[trigger] arena[s]).precedence@ == all_linked(
                    unlinked,
                    projects,
                    s,
                    count,
                )
        }
}

/// The activities in the order in which they were given, each made with its
/// segments, and the segments of all of them.
fn make_activities(
    resources: &Vec<Vec<usize>>,
    projs: &Vec<usize>,
    durations: &Vec<usize>,
    count: usize,
) -> (made: (Vec<Project>, Vec<Segment>))
    requires
        count == shortest(resources@.len(), projs@.len(), durations@.len()),
        forall|k: int| 0 <= k < count ==> #[trigger] durations@[k] < usize::MAX,
        offset(durations@, count as nat) <= usize::MAX,
    ensures
        made.0@.len() == count,
        made.1@.len() == offset(durations@, count as nat),
        forall|q: int|
            0 <= q < count ==> #[trigger] activity_made(made.0@, resources@, durations@, projs@, q),
        forall|q: int|
            0 <= q < count ==> #[trigger] decomposed(made.1@, resources@, durations@, projs@, q),
        is_closed(made.1@),
        is_covered(made.1@, resources@, count as nat),
{
    let ghost total = count as nat;
    let mut created: Vec<Project> = Vec::new();
    let mut arena: Vec<Segment> = Vec::new();
    let mut id_gen = IdGenerator::generator_for_segment();
    let mut k: usize = 0;
    while k < count
        invariant
            k <= count,
            total == count,
            total == shortest(resources@.len(), projs@.len(), durations@.len()),
            forall|q: int| 0 <= q < total ==> #[trigger] durations@[q] < usize::MAX,
            offset(durations@, total) <= usize::MAX,
            created@.len() == k,
            arena@.len() == offset(durations@, k as nat),
            id_gen.0 == arena@.len(),
            forall|q: int|
                0 <= q < k ==> #[trigger] activity_made(
                    created@,
                    resources@,
                    durations@,
                    projs@,
                    q,
                ),
            forall|q: int|
                0 <= q < k ==> #[trigger] decomposed(arena@, resources@, durations@, projs@, q),
            is_closed(arena@),
            is_covered(arena@, resources@, total),
        decreases count - k,
    {
        proof {
            lemma_offset_monotone(durations@, (k + 1) as nat, total);
            assert(durations@[k as int] < usize::MAX);
        }
        let ghost before = arena@;
        let ghost earlier = created@;
        let made = Project::new(
            durations[k],
            projs[k],
            duplicate(&resources[k]),
            Vec::new(),
            &mut id_gen,
            &mut arena,
        );
        let ghost project = made;
        created.push(made);
        proof {
            let base = before.len() as int;
            let fresh = arena@.skip(base);
            assert(arena@.subrange(base, arena@.len() as int) =~= fresh);
            assert(offset(durations@, (k + 1) as nat) == offset(durations@, k as nat)
                + segment_total(durations@[k as int] as nat));
            assert(arena@.take(base) == before);
            assert forall|i: int| 0 <= i < base implies arena@[i] == before[i] by {
                assert(arena@.take(base)[i] == arena@[i]);
            }
            assert forall|q: int| 0 <= q < k + 1 implies #[trigger] activity_made(
                created@,
                resources@,
                durations@,
                projs@,
                q,
            ) by {
                if q < k {
                    assert(activity_made(earlier, resources@, durations@, projs@, q));
                    assert(created@[q] == earlier[q]);
                } else {
                    assert(created@[q] == project);
                    assert(project.segments@ =~= places_of(durations@, q));
                }
            }
            assert forall|q: int| 0 <= q < k + 1 implies #[trigger] decomposed(
                arena@,
                resources@,
                durations@,
                projs@,
                q,
            ) by {
                if q < k {
                    assert(decomposed(before, resources@, durations@, projs@, q));
                    lemma_offset_monotone(durations@, (q + 1) as nat, k as nat);
                    lemma_offset_monotone(durations@, q as nat, (q + 1) as nat);
                    assert(arena@.subrange(
                        offset(durations@, q as nat) as int,
                        offset(durations@, (q + 1) as nat) as int,
                    ) =~= before.subrange(
                        offset(durations@, q as nat) as int,
                        offset(durations@, (q + 1) as nat) as int,
                    ));
                }
            }
            assert forall|i: int| 0 <= i < arena@.len() implies (#[trigger] arena@[i]).id == i
                && all_within(arena@[i].precedence@, arena@.len()) by {
                if i < base {
                    assert(arena@[i] == before[i]);
                    assert(all_within(before[i].precedence@, before.len()));
                } else {
                    assert(fresh[i - base] == arena@[i]);
                }
            }
            assert forall|i: int| 0 <= i < arena@.len() implies demanded_by(
                #[trigger] arena@[i],
                resources@,
                total,
            ) by {
                if i < base {
                    assert(arena@[i] == before[i]);
                    assert(demanded_by(before[i], resources@, total));
                } else {
                    assert(fresh[i - base] == arena@[i]);
                    assert(resources@[k as int]@ == arena@[i].resource@);
                }
            }
        }
        k = k + 1;
    }
    (created, arena)
}

/// The activities by rising id: copies of the made ones, in the order that
/// sorts their ids.
fn by_rising_id(created: &Vec<Project>, projs: &Vec<usize>, count: usize) -> (sorted: (
    Vec<Project>,
    Ghost<Seq<usize>>,
))
    requires
        created@.len() == count,
        count <= projs@.len(),
        forall|q: int| 0 <= q < count ==> (#[trigger] created@[q]).id == projs@[q],
    ensures
        sorted.0@.len() == count,
        is_stable_order(id_keys(projs@, count as nat), sorted.1@),
        forall|k: int|
            0 <= k < count ==> {
                &&& (#[trigger] sorted.0@[k]).duration == created@[sorted.1@[k] as int].duration
                &&& sorted.0@[k].id == created@[sorted.1@[k] as int].id
                &&& sorted.0@[k].resource@ == created@[sorted.1@[k] as int].resource@
                &&& sorted.0@[k].precedence@ == created@[sorted.1@[k] as int].precedence@
                &&& sorted.0@[k].segments@ == created@[sorted.1@[k] as int].segments@
            },
{
    let mut keys: Vec<(bool, usize, i64)> = Vec::new();
    let mut q: usize = 0;
    while q < count
        invariant
            q <= count,
            count <= projs@.len(),
            keys@ == id_keys(projs@, q as nat),
        decreases count - q,
    {
        keys.push((false, projs[q], 0i64));
        assert(keys@ =~= id_keys(projs@, (q + 1) as nat));
        q = q + 1;
    }
    let order = stable_order(&keys);
    let mut projects: Vec<Project> = Vec::new();
    let mut k: usize = 0;
    while k < count
        invariant
            k <= count,
            created@.len() == count,
            keys@.len() == count,
            is_stable_order(keys@, order@),
            projects@.len() == k,
            forall|j: int|
                0 <= j < k ==> {
                    &&& (#[trigger] projects@[j]).duration == created@[order@[j] as int].duration
                    &&& projects@[j].id == created@[order@[j] as int].id
                    &&& projects@[j].resource@ == created@[order@[j] as int].resource@
                    &&& projects@[j].precedence@ == created@[order@[j] as int].precedence@
                    &&& projects@[j].segments@ == created@[order@[j] as int].segments@
                },
        decreases count - k,
    {
        assert(order@[k as int] < keys@.len());
        let copy = created[order[k]].duplicate();
        projects.push(copy);
        k = k + 1;
    }
    (projects, Ghost(order@))
}

/// The activities of an instance with their segments and the precedence
/// between them: one activity per entry of the shortest of `resources`,
/// `projs` and `durations`. The segments are made and numbered in the order
/// in which the activities are given; the activities are returned by rising
/// id. `successors` lists, for the activity at each place of that order, the
/// numbers of the places of those that may start only when it has finished.
pub fn create_projects(
    resources: Vec<Vec<usize>>,
    successors: Vec<Vec<usize>>,
    projs: Vec<usize>,
    durations: Vec<usize>,
) -> (built: (Vec<Project>, Vec<Segment>))
    requires
        ids_differ(projs@, shortest(resources@.len(), projs@.len(), durations@.len())),
        forall|k: int|
            0 <= k < shortest(resources@.len(), projs@.len(), durations@.len())
                ==> #[trigger] durations@[k] < usize::MAX,
        offset(durations@, shortest(resources@.len(), projs@.len(), durations@.len()))
            <= usize::MAX,
        successors@.len() <= shortest(resources@.len(), projs@.len(), durations@.len()),
        names_activities(
            successors@,
            shortest(resources@.len(), projs@.len(), durations@.len()),
        ),
        forall|i: int, c: int|
            0 <= i < successors@.len() && 0 <= c < successors@[i]@.len() ==> (
            #[trigger] successors@[i]@[c]) != i + 1,
    ensures
        built.0@.len() == shortest(resources@.len(), projs@.len(), durations@.len()),
        is_wired(
            built.0@,
            built.1@,
            resources@,
            successors@,
            projs@,
            durations@,
            shortest(resources@.len(), projs@.len(), durations@.len()),
        ),
        is_closed(built.1@),
        can_link(built.0@, built.1@.len()),
        is_covered(
            built.1@,
            resources@,
            shortest(resources@.len(), projs@.len(), durations@.len()),
        ),
        forall|j: int| 0 <= j < built.0@.len() ==> (#[trigger] built.0@[j]).duration < usize::MAX,
{
    let mut count = resources.len();
    if projs.len() < count {
        count = projs.len();
    }
    if durations.len() < count {
        count = durations.len();
    }
    let ghost total = count as nat;
    let made = make_activities(&resources, &projs, &durations, count);
    let created = made.0;
    let mut arena = made.1;
    let ghost unlinked = arena@;
    proof {
        assert forall|q: int| 0 <= q < count implies (#[trigger] created@[q]).id == projs@[q] by {
            assert(activity_made(created@, resources@, durations@, projs@, q));
        }
    }
    let sorted = by_rising_id(&created, &projs, count);
    let mut projects = sorted.0;
    let ghost order = sorted.1@;
    let ghost bare = projects@;
    proof {
        assert forall|k: int| 0 <= k < total implies #[trigger] activity_built(
            bare,
            resources@,
            durations@,
            projs@,
            order,
            k,
        ) && bare[k].precedence@.len() == 0 by {
            assert(order[k] < total);
            assert(bare[k].id == created@[order[k] as int].id);
            assert(activity_made(created@, resources@, durations@, projs@, order[k] as int));
        }
    }
    connect_precedence(&mut projects, &successors);
    proof {
        assert forall|k: int| 0 <= k < total implies #[trigger] activity_built(
            projects@,
            resources@,
            durations@,
            projs@,
            order,
            k,
        ) by {
            assert(activity_built(bare, resources@, durations@, projs@, order, k));
            assert(projects@[k] == (Project { precedence: projects@[k].precedence, ..bare[k] }));
        }
        assert(is_built(projects@, unlinked, resources@, durations@, projs@, order, total));
        assert forall|j: int| 0 <= j < total implies (#[trigger] projects@[j]).precedence@
            == recorded_predecessors(successors@, numbers(total), j, successors@.len()) by {
            assert(activity_built(bare, resources@, durations@, projs@, order, j));
            assert(bare[j].precedence@.len() == 0);
            assert(projects@[j].precedence@ =~= recorded_predecessors(
                successors@,
                numbers(total),
                j,
                successors@.len(),
            ));
        }
        assert forall|j: int| 0 <= j < projects@.len() implies {
            &&& all_within((#[trigger] projects@[j]).segments@, unlinked.len())
            &&& projects@[j].duration < usize::MAX
            &&& forall|e: int|
                0 <= e < projects@[j].precedence@.len() ==> {
                    &&& 1 <= (#[trigger] projects@[j].precedence@[e]) <= projects@.len()
                    &&& projects@[projects@[j].precedence@[e] - 1].id != projects@[j].id
                }
        } by {
            assert(activity_built(projects@, resources@, durations@, projs@, order, j));
            assert(order[j] < total);
            lemma_offset_monotone(durations@, (order[j] + 1) as nat, total);
            lemma_recorded_predecessors(successors@, numbers(total), j, successors@.len());
            assert forall|e: int| 0 <= e < projects@[j].precedence@.len() implies {
                &&& 1 <= (#[trigger] projects@[j].precedence@[e]) <= projects@.len()
                &&& projects@[projects@[j].precedence@[e] - 1].id != projects@[j].id
            } by {
                let p = projects@[j].precedence@[e];
                assert(recorded_by(successors@, numbers(total), j, p, successors@.len()));
                let (i, c) = choose|i: int, c: int|
                    i < successors@.len() && #[trigger] records(
                        successors@,
                        numbers(total),
                        j,
                        p,
                        i,
                        c,
                    );
                assert(successors@[i]@[c] != i + 1);
                assert(p == i + 1);
                assert(activity_built(projects@, resources@, durations@, projs@, order, i));
                assert(order[i] < total);
                if i < j {
                    assert(order[i] != order[j]);
                } else {
                    assert(order[j] != order[i]);
                }
                if order[i] < order[j] {
                    assert(projs@[order[i] as int] != projs@[order[j] as int]);
                } else {
                    assert(projs@[order[j] as int] != projs@[order[i] as int]);
                }
            }
        }
    }
    link_with_precedence(&projects, &mut arena);
    proof {
        assert forall|i: int| 0 <= i < arena@.len() implies (#[trigger] arena@[i]).id == i
            && all_within(arena@[i].precedence@, arena@.len()) by {
            assert(arena@[i] == (Segment { precedence: arena@[i].precedence, ..unlinked[i] }));
            lemma_all_linked_within(unlinked, projects@, i, projects@.len());
        }
        assert forall|i: int| 0 <= i < arena@.len() implies demanded_by(
            #[trigger] arena@[i],
            resources@,
            total,
        ) by {
            assert(arena@[i] == (Segment { precedence: arena@[i].precedence, ..unlinked[i] }));
            assert(demanded_by(unlinked[i], resources@, total));
        }
    }
    (projects, arena)
}

/// The segments of activity `k` can be counted, and it states a demand for
/// every capacity.
pub open spec fn activity_fits(instance: InstanceView, k: int) -> bool {
    &&& instance.durations[k] < usize::MAX
    &&& instance.resources[k].len() >= instance.capacities.len()
}

/// Entry `c` of row `i` of the successor table names one of the first
/// `count` activities, and not the activity of the row.
pub open spec fn successor_fits(instance: InstanceView, count: nat, i: int, c: int) -> bool {
    1 <= instance.successors[i][c] <= count && instance.successors[i][c] != i + 1
}

/// An instance from which a schedule can be built: it has an activity; no
/// two activities have the same id; they and their segments can be counted;
/// every activity states a demand for every capacity; and every row of the
/// successor table belongs to an activity and names other activities only.
pub open spec fn buildable(instance: InstanceView) -> bool {
    let count = shortest(
        instance.resources.len(),
        instance.activities.len(),
        instance.durations.len(),
    );
    &&& count >= 1
    &&& ids_differ(instance.activities, count)
    &&& forall|k: int| 0 <= k < count ==> #[trigger] activity_fits(instance, k)
    &&& offset(instance.durations, count) <= usize::MAX
    &&& instance.successors.len() <= count
    &&& forall|i: int, c: int|
        0 <= i < instance.successors.len() && 0 <= c < instance.successors[i].len()
            ==> #[trigger] successor_fits(instance, count, i, c)
}

/// Whether no two of the first `count` ids are the same.
fn all_differ(ids: &Vec<usize>, count: usize) -> (yes: bool)
    requires
        count <= ids@.len(),
    ensures
        yes == ids_differ(ids@, count as nat),
{
    let mut a: usize = 0;
    while a < count
        invariant
            a <= count,
            count <= ids@.len(),
            forall|x: int, y: int| 0 <= x < y < count && x < a ==> #[trigger] ids@[x] != #[trigger] ids@[y],
        decreases count - a,
    {
        let mut b: usize = a + 1;
        while b < count
            invariant
                a < b <= count,
                count <= ids@.len(),
                forall|y: int| a < y < b ==> ids@[a as int] != #[trigger] ids@[y],
            decreases count - b,
        {
            if ids[a] == ids[b] {
                return false;
            }
            b = b + 1;
        }
        a = a + 1;
    }
    true
}

/// The number of segments of an activity, when it is a machine integer.
fn count_segments(duration: usize) -> (total: Option<usize>)
    ensures
        match total {
            Some(t) => t == segment_total(duration as nat),
            None => segment_total(duration as nat) > usize::MAX,
        },
{
    proof {
        lemma_segment_total(duration as nat);
    }
    if duration == 0 {
        return Some(1);
    }
    let d = duration as u128;
    assert(d * (d + 1) <= 0xffff_ffff_ffff_ffff * 0x1_0000_0000_0000_0000) by (nonlinear_arith)
        requires
            0 <= d <= 0xffff_ffff_ffff_ffff,
    ;
    let doubled: u128 = d * (d + 1);
    let total = doubled / 2;
    if total > usize::MAX as u128 {
        None
    } else {
        Some(total as usize)
    }
}

impl Schedule {
    /// The schedule is fit to be encoded: it has an activity; every segment
    /// stands at the position of its id and has segments of the schedule as
    /// predecessors; every activity names segments of the schedule; and every
    /// segment states a demand for every capacity.
    pub open spec fn ready(&self) -> bool {
        &&& self.projects@.len() >= 1
        &&& is_closed(self.segments@)
        &&& forall|j: int|
            0 <= j < self.projects@.len() ==> {
                &&& (#[trigger] self.projects@[j]).duration < usize::MAX
                &&& all_within(self.projects@[j].segments@, self.segments@.len())
            }
        &&& forall|i: int|
            0 <= i < self.segments@.len() ==> (#[trigger] self.segments@[i]).resource@.len()
                >= self.resources@.len()
    }

    /// The schedule of an instance: its activities with their segments and
    /// the precedence between them, and its capacities. An instance that is
    /// not fit for it has none.
    pub fn from_instance(instance: Instance) -> (schedule: Option<Schedule>)
        ensures
            schedule is Some <==> buildable(instance@),
            schedule matches Some(built) ==> {
                &&& built.ready()
                &&& built.resources@ == instance.capacities@
                &&& built.projects@.len() == shortest(
                    instance.resources@.len(),
                    instance.activities@.len(),
                    instance.durations@.len(),
                )
                &&& is_wired(
                    built.projects@,
                    built.segments@,
                    instance.resources@,
                    instance.successors@,
                    instance.activities@,
                    instance.durations@,
                    built.projects@.len(),
                )
            },
    {
        let mut count = instance.resources.len();
        if instance.activities.len() < count {
            count = instance.activities.len();
        }
        if instance.durations.len() < count {
            count = instance.durations.len();
        }
        let ghost view = instance@;
        if count < 1 || instance.successors.len() > count {
            return None;
        }
        if !all_differ(&instance.activities, count) {
            return None;
        }
        let mut segments: usize = 0;
        let mut k: usize = 0;
        while k < count
            invariant
                k <= count,
                view == instance@,
                count == shortest(view.resources.len(), view.activities.len(), view.durations.len()),
                segments == offset(view.durations, k as nat),
                ids_differ(view.activities, count as nat),
                forall|q: int| 0 <= q < k ==> #[trigger] activity_fits(view, q),
            decreases count - k,
        {
            assert(view.resources[k as int] == instance.resources@[k as int]@);
            if instance.durations[k] == usize::MAX || instance.resources[k].len()
                < instance.capacities.len() {
                assert(!activity_fits(view, k as int));
                return None;
            }
            assert(activity_fits(view, k as int));
            proof {
                lemma_offset_monotone(view.durations, (k + 1) as nat, count as nat);
            }
            let own = match count_segments(instance.durations[k]) {
                Some(own) => own,
                None => {
                    return None;
                },
            };
            if own > usize::MAX - segments {
                return None;
            }
            segments = segments + own;
            k = k + 1;
        }
        let mut i: usize = 0;
        while i < instance.successors.len()
            invariant
                i <= view.successors.len(),
                view == instance@,
                count >= 1,
                view.successors.len() <= count,
                count == shortest(view.resources.len(), view.activities.len(), view.durations.len()),
                offset(view.durations, count as nat) <= usize::MAX,
                ids_differ(view.activities, count as nat),
                forall|q: int| 0 <= q < count ==> #[trigger] activity_fits(view, q),
                forall|r: int, c: int|
                    0 <= r < i && 0 <= c < view.successors[r].len() ==> #[trigger] successor_fits(
                        view,
                        count as nat,
                        r,
                        c,
                    ),
            decreases view.successors.len() - i,
        {
            let row = &instance.successors[i];
            assert(view.successors[i as int] == row@);
            let mut c: usize = 0;
            while c < row.len()
                invariant
                    c <= row@.len(),
                    i < view.successors.len(),
                    view == instance@,
                    view.successors.len() <= count,
                    count == shortest(
                        view.resources.len(),
                        view.activities.len(),
                        view.durations.len(),
                    ),
                    view.successors[i as int] == row@,
                    ids_differ(view.activities, count as nat),
                    forall|e: int|
                        0 <= e < c ==> #[trigger] successor_fits(view, count as nat, i as int, e),
                decreases row@.len() - c,
            {
                assert(view.successors[i as int][c as int] == row@[c as int]);
                if row[c] < 1 || row[c] > count || row[c] == i + 1 {
                    assert(!successor_fits(view, count as nat, i as int, c as int));
                    return None;
                }
                assert(successor_fits(view, count as nat, i as int, c as int));
                c = c + 1;
            }
            i = i + 1;
        }
        proof {
            assert(buildable(view));
            assert(view.resources.len() == instance.resources@.len());
            assert(view.activities == instance.activities@);
            assert(view.durations == instance.durations@);
            assert(view.successors.len() == instance.successors@.len());
            assert forall|r: int, c: int|
                0 <= r < instance.successors@.len() && 0 <= c < instance.successors@[r]@.len() implies 1
                <= (#[trigger] instance.successors@[r]@[c]) <= count && instance.successors@[r]@[c]
                != r + 1 by {
                assert(successor_fits(view, count as nat, r, c));
                assert(view.successors[r][c] == instance.successors@[r]@[c]);
            }
            assert(count == shortest(
                instance.resources@.len(),
                instance.activities@.len(),
                instance.durations@.len(),
            ));
        }
        let Instance { resources, successors, activities, durations, capacities } = instance;
        let ghost demands = resources@;
        proof {
            assert(ids_differ(
                activities@,
                shortest(resources@.len(), activities@.len(), durations@.len()),
            ));
            assert forall|q: int|
                0 <= q < shortest(
                    resources@.len(),
                    activities@.len(),
                    durations@.len(),
                ) implies #[trigger] durations@[q] < usize::MAX by {
                assert(activity_fits(view, q));
            }
        }
        let built = create_projects(resources, successors, activities, durations);
        let schedule = Schedule::new(built.0, built.1, capacities);
        proof {
            assert forall|s: int| 0 <= s < schedule.segments@.len() implies (
            #[trigger] schedule.segments@[s]).resource@.len() >= schedule.resources@.len() by {
                assert(demanded_by(schedule.segments@[s], demands, count as nat));
                let q = choose|q: int|
                    0 <= q < count && (#[trigger] demands[q])@ == schedule.segments@[s].resource@;
                assert(view.resources[q] == demands[q]@);
                assert(activity_fits(view, q));
            }
        }
        Some(schedule)
    }

    /// An instance of the given activities, segments and capacities.
    pub fn new(projects: Vec<Project>, segments: Vec<Segment>, resources: Vec<usize>) -> (schedule:
        Self)
        ensures
            schedule.projects == projects,
            schedule.segments == segments,
            schedule.resources == resources,
    {
        Schedule { projects, segments, resources }
    }

    /// The activities, in the order of their numbers.
    pub fn projects(&self) -> (projects: &Vec<Project>)
        ensures
            projects == self.projects,
    {
        &self.projects
    }
}

} // verus!
