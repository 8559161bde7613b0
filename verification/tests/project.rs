use rcpsp_wcnf::id_generator::IdGenerator;
use rcpsp_wcnf::project::{select, Choice, Project};
use rcpsp_wcnf::sat_seg_var::Clause;
use rcpsp_wcnf::segment::Segment;

fn activity(duration: usize, id: usize, first_id: usize) -> (Project, Vec<Segment>) {
    let mut id_gen = IdGenerator(first_id);
    let mut arena = Vec::new();
    let project = Project::new(duration, id, vec![1], Vec::new(), &mut id_gen, &mut arena);
    (project, arena)
}

#[test]
fn project_generte_seg_correct_amount() {
    let mut id_gen = IdGenerator(0);
    let mut arena = Vec::new();
    let projct = Project::new(3, 1, vec![1], Vec::new(), &mut id_gen, &mut arena);
    assert_eq!(projct.segments.len(), (3 * 4) / 2);
}

#[test]
fn project_generate_first_seg_amount() {
    let mut id_gen = IdGenerator(0);
    let mut arena = Vec::new();
    let projct = Project::new(3, 1, vec![1], Vec::new(), &mut id_gen, &mut arena);
    let first_segements = projct.get_first_segments(&arena);
    assert_eq!(first_segements.len(), 3);
}

#[test]
fn project_generate_last_seg_amount() {
    let mut id_gen = IdGenerator(0);
    let mut arena = Vec::new();
    let projct = Project::new(3, 1, vec![1], Vec::new(), &mut id_gen, &mut arena);
    let last_segments = projct.get_last_segments(&arena);
    assert_eq!(last_segments.len(), 3);
}

#[test]
fn project_link_correctly() {
    let mut id_gen = IdGenerator::generator_for_segment();
    let mut arena = Vec::new();
    let project1 = Project::new(1, 1, Vec::new(), Vec::new(), &mut id_gen, &mut arena);
    let mut project2 = Project::new(1, 2, Vec::new(), Vec::new(), &mut id_gen, &mut arena);

    project2.add_presedence(&project1);
    let projects = vec![project1.clone()];
    project2.link_with_precedents(&projects, &mut arena);

    let project_2_first = project2.get_first_segments(&arena);
    let project_1_last = project1.get_last_segments(&arena);

    assert!(!project_2_first.is_empty());
    assert!(!project_1_last.is_empty());
    for segment_2_first in &project_2_first {
        for segment_1_last in &project_1_last {
            assert!(arena[*segment_2_first].precedence.contains(segment_1_last));
        }
    }
    for segment in project2.segments() {
        println!("{}", arena[*segment].to_string());
    }
}

#[test]
fn an_activity_as_text() {
    let (mut project, _) = activity(2, 5, 7);
    let (other, _) = activity(1, 3, 0);
    project.add_presedence(&other);
    assert_eq!(
        project.to_string(),
        "Project with ID: 5 \nDuration: 2\n Resource: [1]  \nPrecedents: [3]\n Segments: [0, 1, 2]"
    );
    assert_eq!(
        other.to_string(),
        "Project with ID: 3 \nDuration: 1\n Resource: [1]  \nPrecedents: []\n Segments: [0]"
    );
}

#[test]
fn segment_counts_follow_the_duration() {
    for d in 1..8usize {
        let (project, arena) = activity(d, 1, 0);
        assert_eq!(arena.len(), d * (d + 1) / 2);
        assert_eq!(project.segments().len(), d * (d + 1) / 2);
        assert_eq!(project.get_first_segments(&arena).len(), d);
        assert_eq!(project.get_last_segments(&arena).len(), d);
    }
}

#[test]
fn activity_without_duration_has_one_segment() {
    let (project, arena) = activity(0, 4, 0);
    assert_eq!(arena.len(), 1);
    assert_eq!(arena[0].start_jiff, 0);
    assert_eq!(arena[0].duration, 0);
    assert_eq!(arena[0].og_duration, 0);
    assert!(!arena[0].has_set_up);
    assert_eq!(project.get_first_segments(&arena), vec![0]);
    assert_eq!(project.get_last_segments(&arena), vec![0]);
}

#[test]
fn segments_are_ordered_by_offset_then_span() {
    let (project, arena) = activity(3, 9, 10);
    let shapes: Vec<(usize, usize, usize)> =
        arena.iter().map(|s| (s.id, s.start_jiff, s.og_duration)).collect();
    assert_eq!(
        shapes,
        vec![(10, 1, 1), (11, 1, 2), (12, 1, 3), (13, 2, 1), (14, 2, 2), (15, 3, 1)]
    );
    assert_eq!(project.segments, vec![0, 1, 2, 3, 4, 5]);
    for segment in &arena {
        assert_eq!(segment.parent_project, 9);
        assert_eq!(segment.resource, vec![1]);
        assert_eq!(segment.duration, segment.og_duration);
        assert_eq!(segment.has_set_up, segment.start_jiff == 1);
        assert!(segment.variables.is_empty());
        assert!(segment.uvariables.is_empty());
    }
}

#[test]
fn a_segment_depends_on_those_that_end_where_it_begins() {
    let (_, arena) = activity(3, 1, 0);
    let precedence: Vec<Vec<usize>> = arena.iter().map(|s| s.precedence.clone()).collect();
    assert_eq!(
        precedence,
        vec![vec![], vec![], vec![], vec![0], vec![0], vec![1, 3]]
    );
}

#[test]
fn generate_segments_issues_ids_from_the_generator() {
    let mut id_gen = IdGenerator(5);
    let segments = Project::generate_segments(2, &mut id_gen, &vec![3, 4], 2);
    assert_eq!(segments.len(), 3);
    assert_eq!(id_gen.0, 8);
    assert_eq!(segments[2].id, 7);
    assert_eq!(segments[2].precedence, vec![5]);
    assert_eq!(segments[1].resource, vec![3, 4]);
}

#[test]
fn first_and_last_segments_by_rule() {
    let (project, arena) = activity(3, 1, 0);
    assert_eq!(project.get_first_segments(&arena), vec![0, 1, 2]);
    assert_eq!(project.get_last_segments(&arena), vec![2, 4, 5]);
    assert_eq!(
        select(&arena, &project.segments, Choice::First { project: 2 }),
        Vec::<usize>::new()
    );
}

#[test]
fn segments_for_a_jiffy_cover_it() {
    let (project, arena) = activity(3, 1, 0);
    assert_eq!(project.get_segments_for_jiffy(1, &arena), vec![0, 1, 2]);
    assert_eq!(project.get_segments_for_jiffy(2, &arena), vec![1, 2, 3, 4]);
    assert_eq!(project.get_segments_for_jiffy(3, &arena), vec![2, 4, 5]);
    assert_eq!(project.get_segments_for_jiffy(4, &arena), Vec::<usize>::new());
    assert_eq!(project.get_segments_for_jiffy(0, &arena), Vec::<usize>::new());
}

#[test]
fn completion_clauses_cover_every_jiffy() {
    let mut id_gen = IdGenerator(0);
    let mut arena = Vec::new();
    let project = Project::new(2, 1, vec![1], Vec::new(), &mut id_gen, &mut arena);
    assert_eq!(arena.len(), 3);
    let mut sat_ids = IdGenerator::generator_for_sat();
    for segment in arena.iter_mut() {
        segment.generate_SAT_vars(&mut sat_ids, 0, 1);
    }
    // Segment (1,1) has start ids 1, 2; (1,2) has 6, 7; (2,1) has 12, 13.
    let starts: Vec<Vec<usize>> =
        arena.iter().map(|s| s.variables.iter().map(|v| v.id).collect()).collect();
    assert_eq!(starts, vec![vec![1, 2], vec![6, 7], vec![12, 13]]);
    let clauses = project.generate_completion_clauses(&arena);
    assert_eq!(
        clauses,
        vec![Clause::new(vec![1, 2, 6, 7]), Clause::new(vec![6, 7, 12, 13])]
    );
}

#[test]
fn activity_without_duration_has_no_completion_clause() {
    let (project, mut arena) = activity(0, 1, 0);
    let mut sat_ids = IdGenerator::generator_for_sat();
    arena[0].generate_SAT_vars(&mut sat_ids, 0, 0);
    assert!(project.generate_completion_clauses(&arena).is_empty());
}

#[test]
fn last_project_segment_gives_unit_clauses() {
    let (project, mut arena) = activity(0, 1, 0);
    let mut sat_ids = IdGenerator::generator_for_sat();
    arena[0].generate_SAT_vars(&mut sat_ids, 2, 4);
    let clauses = project.generate_last_project_segment(&arena);
    assert_eq!(
        clauses,
        vec![Clause::new(vec![1]), Clause::new(vec![2]), Clause::new(vec![3])]
    );
}

#[test]
fn activities_are_equal_by_id() {
    let (a, _) = activity(1, 5, 0);
    let (b, _) = activity(3, 5, 0);
    let (c, _) = activity(1, 6, 0);
    assert_eq!(a, b);
    assert_ne!(a, c);
}

#[test]
fn getters_return_the_fields() {
    let (mut project, _) = activity(2, 5, 0);
    let (other, _) = activity(1, 3, 0);
    project.add_presedence(&other);
    assert_eq!(project.id(), 5);
    assert_eq!(project.duration(), 2);
    assert_eq!(project.precedence(), &vec![3]);
    assert_eq!(project.segments(), &vec![0, 1, 2]);
}
