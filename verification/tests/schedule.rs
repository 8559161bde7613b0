use rcpsp_wcnf::encode::{stable_order, EncodeError, Windows};
use rcpsp_wcnf::floyd_warshall::UNREACHABLE;
use rcpsp_wcnf::id_generator::IdGenerator;
use rcpsp_wcnf::project::Project;
use rcpsp_wcnf::sat_seg_var::{Clause, OracleError};
use rcpsp_wcnf::schedule::{connect_precedence, create_projects, link_with_precedence, Schedule};
use rcpsp_wcnf::segment::Segment;
use rcpsp_wcnf::wcnf::{first_line, largest_of, write_wcnf, DocumentError};

/// Source without duration, one activity of duration 1, sink without
/// duration, in a chain; no resources.
fn chain_of_three() -> Schedule {
    let (projects, segments) = create_projects(
        vec![vec![], vec![], vec![]],
        vec![vec![2], vec![3], vec![]],
        vec![1, 2, 3],
        vec![0, 1, 0],
    );
    Schedule::new(projects, segments, Vec::new())
}

#[allow(non_snake_case)]
#[test]
fn counterExampleFileProd() {}

#[test]
fn proj_creation_from_read() {
    //Project of size 1, with no dependencies, and resource 1
    let rsr = vec![vec![1]];
    let act = vec![1];
    let dep: Vec<Vec<usize>> = vec![vec![]];

    let (created, _) = create_projects(rsr, dep, act, vec![1]);
    let created_project = &created[0];
    let mut arena = Vec::new();
    let expected_project =
        Project::new(1, 1, vec![1], Vec::new(), &mut IdGenerator(0), &mut arena);
    //simpl test
    assert_eq!(*created_project, expected_project);
}

#[test]
fn proj_creation_three() {
    // 1 -> 2 -> 3 (3 depends on 2, which depends on 1)
    // all have same resource usage, which is vec1
    let resources = vec![vec![1], vec![1], vec![1]];
    let mut id_gen = IdGenerator(0);
    let mut arena = Vec::new();
    let project1 = Project::new(1, 1, vec![1], Vec::new(), &mut id_gen, &mut arena);
    let project2 = Project::new(1, 2, vec![1], vec![1], &mut id_gen, &mut arena);
    let project3 = Project::new(1, 3, vec![1], vec![2], &mut id_gen, &mut arena);
    let expected_projects = vec![&project1, &project2, &project3];

    let successors = vec![vec![2], vec![3], vec![]];
    let projs = vec![1, 2, 3];
    let durations = vec![1, 1, 1];
    let (generetad_projects, _) = create_projects(resources, successors, projs, durations);
    for generated in &generetad_projects {
        assert!(expected_projects.contains(&generated));
    }
    assert_eq!(generetad_projects.len(), 3);
    assert_ne!(generetad_projects[0], generetad_projects[1]);
    assert_ne!(generetad_projects[1], generetad_projects[2]);
    assert_ne!(generetad_projects[0], generetad_projects[2]);
    assert_eq!(generetad_projects[0].precedence(), &Vec::<usize>::new());
    assert_eq!(generetad_projects[1].precedence(), &project2.precedence);
    assert_eq!(generetad_projects[1].precedence(), &vec![1]);
    assert_eq!(generetad_projects[2].precedence(), &vec![2]);
}

#[test]
fn created_segments_are_numbered_and_linked() {
    let (projects, arena) = create_projects(
        vec![vec![1], vec![2], vec![3]],
        vec![vec![2, 3], vec![3], vec![]],
        vec![1, 2, 3],
        vec![2, 0, 1],
    );
    assert_eq!(projects[0].segments, vec![0, 1, 2]);
    assert_eq!(projects[1].segments, vec![3]);
    assert_eq!(projects[2].segments, vec![4]);
    let ids: Vec<usize> = arena.iter().map(|s| s.id).collect();
    assert_eq!(ids, vec![0, 1, 2, 3, 4]);
    let parents: Vec<usize> = arena.iter().map(|s| s.parent_project).collect();
    assert_eq!(parents, vec![1, 1, 1, 2, 3]);
    let demands: Vec<Vec<usize>> = arena.iter().map(|s| s.resource.clone()).collect();
    assert_eq!(demands, vec![vec![1], vec![1], vec![1], vec![2], vec![3]]);
    // Last segments of activity 1 are (1,2) and (2,1); of activity 2 its
    // only segment.
    let precedence: Vec<Vec<usize>> = arena.iter().map(|s| s.precedence.clone()).collect();
    assert_eq!(
        precedence,
        vec![vec![], vec![], vec![0], vec![1, 2], vec![1, 2, 3]]
    );
    assert_eq!(projects[2].precedence, vec![1, 2]);
}

#[test]
fn the_shortest_input_list_bounds_the_activities() {
    let (projects, arena) =
        create_projects(vec![vec![], vec![]], vec![], vec![1, 2, 3], vec![1, 1, 1, 1]);
    assert_eq!(projects.len(), 2);
    assert_eq!(arena.len(), 2);
    let (projects, arena) = create_projects(vec![], vec![], vec![], vec![]);
    assert!(projects.is_empty());
    assert!(arena.is_empty());
}

#[test]
fn connect_records_predecessors_in_table_order() {
    let mut id_gen = IdGenerator(0);
    let mut arena = Vec::new();
    let mut projects = vec![
        Project::new(0, 1, vec![], Vec::new(), &mut id_gen, &mut arena),
        Project::new(0, 2, vec![], Vec::new(), &mut id_gen, &mut arena),
        Project::new(0, 3, vec![], Vec::new(), &mut id_gen, &mut arena),
    ];
    connect_precedence(&mut projects, &vec![vec![3, 2], vec![3]]);
    assert_eq!(projects[0].precedence, Vec::<usize>::new());
    assert_eq!(projects[1].precedence, vec![1]);
    assert_eq!(projects[2].precedence, vec![1, 2]);
    link_with_precedence(&projects, &mut arena);
    assert_eq!(arena[1].precedence, vec![0]);
    assert_eq!(arena[2].precedence, vec![0, 1]);
}

#[test]
fn a_chain_of_three_is_encoded() {
    let mut schedule = chain_of_three();
    let text = schedule.encode(0).unwrap();
    assert_eq!(
        text,
        "c 1 2 10 5 6 3 4 7 8 9 11 \n\
         p wcnf 12 11 3\n\
         3 -1 3 0\n\
         3 -2 4 0\n\
         3 -5 1 0\n\
         3 -6 1 2 0\n\
         3 -5 7 0\n\
         3 -5 8 0\n\
         3 -6 8 0\n\
         3 -6 9 0\n\
         3 -10 5 0\n\
         3 -10 11 0\n\
         3 5 6 0\n\
         2 10 0\n"
    );
}

#[test]
fn the_header_matches_the_body() {
    let mut schedule = chain_of_three();
    let text = schedule.encode(1).unwrap();
    let mut lines = text.lines();
    assert!(lines.next().unwrap().starts_with("c "));
    let header: Vec<&str> = lines.next().unwrap().split(' ').collect();
    assert_eq!(&header[..2], &["p", "wcnf"]);
    let mut clause_lines = 0usize;
    let mut largest = 0u64;
    let mut soft_total = 0u64;
    let top: u64 = header[4].parse().unwrap();
    for line in lines {
        clause_lines += 1;
        let fields: Vec<i64> = line.split(' ').map(|f| f.parse().unwrap()).collect();
        assert_eq!(*fields.last().unwrap(), 0);
        if fields[0] as u64 != top {
            soft_total += fields[0] as u64;
        }
        for literal in &fields[1..fields.len() - 1] {
            assert_ne!(*literal, 0);
            largest = largest.max(literal.unsigned_abs());
        }
    }
    assert_eq!(header[2].parse::<usize>().unwrap(), clause_lines);
    assert_eq!(header[3].parse::<u64>().unwrap(), largest);
    assert!(top > soft_total);
}

#[test]
fn setup_moves_the_sink() {
    let mut schedule = chain_of_three();
    schedule.add_set_up_times(2).unwrap();
    let spans: Vec<usize> = schedule.segments.iter().map(|s| s.duration).collect();
    assert_eq!(spans, vec![0, 3, 0]);
    let windows = schedule.time_windows().unwrap();
    assert_eq!(windows, Windows { earliest: vec![0, 0, 3], horizon: 3 });
}

#[test]
fn windows_of_a_chain() {
    let schedule = chain_of_three();
    let windows = schedule.time_windows().unwrap();
    assert_eq!(windows, Windows { earliest: vec![0, 0, 1], horizon: 1 });
}

#[test]
fn variables_are_numbered_segment_by_segment() {
    let mut schedule = chain_of_three();
    let windows = schedule.time_windows().unwrap();
    let mut id_gen = IdGenerator::generator_for_sat();
    assert_eq!(schedule.generate_variables(&mut id_gen, &windows), Ok(()));
    let starts: Vec<Vec<usize>> = schedule
        .segments
        .iter()
        .map(|s| s.variables.iter().map(|v| v.id()).collect())
        .collect();
    let actives: Vec<Vec<usize>> = schedule
        .segments
        .iter()
        .map(|s| s.uvariables.iter().map(|v| v.id()).collect())
        .collect();
    assert_eq!(starts, vec![vec![1, 2], vec![5, 6], vec![10]]);
    assert_eq!(actives, vec![vec![3, 4], vec![7, 8, 9], vec![11]]);
    assert_eq!(id_gen.0, 12);
    assert_eq!(schedule.active_variables().len(), 6);
    assert_eq!(schedule.active_variables()[2], schedule.segments[1].uvariables[0]);
    assert_eq!(schedule.generate_clauses().len(), 11);
    assert_eq!(schedule.objective(), (vec![Clause::new(vec![10])], vec![2]));
    assert_eq!(schedule.variable_order(11), vec![1, 2, 10, 5, 6, 3, 4, 7, 8, 9, 11]);
    assert_eq!(schedule.variable_order(0), vec![1, 2, 10, 5, 6]);
}

#[test]
fn too_many_variables_change_nothing() {
    let mut schedule = chain_of_three();
    let before = schedule.segments.clone();
    let windows = schedule.time_windows().unwrap();
    let mut id_gen = IdGenerator(usize::MAX - 3);
    assert_eq!(
        schedule.generate_variables(&mut id_gen, &windows),
        Err(EncodeError::TooManyVariables)
    );
    assert_eq!(schedule.segments, before);
    assert_eq!(id_gen.0, usize::MAX - 3);
}

#[test]
fn a_span_that_reaches_the_sentinel_is_refused() {
    let mut schedule = chain_of_three();
    let before = schedule.segments.clone();
    let cost = UNREACHABLE as usize;
    assert_eq!(schedule.encode(cost), Err(EncodeError::SpanOutOfRange { segment: 1 }));
    assert_eq!(schedule.segments, before);
    assert_eq!(schedule.add_set_up_times(cost - 1), Ok(()));
    assert_eq!(schedule.segments[1].duration, UNREACHABLE as usize);
}

#[test]
fn a_segment_cut_off_from_the_origin_is_reported() {
    // The segment of offset 1 and span 2 of the only activity has no
    // predecessor, so nothing leads from it back to segment 0.
    let (projects, segments) = create_projects(vec![vec![]], vec![], vec![1], vec![2]);
    let mut schedule = Schedule::new(projects, segments, Vec::new());
    assert_eq!(schedule.encode(0), Err(EncodeError::Disconnected { segment: 1 }));
}

#[test]
fn a_heavy_cycle_has_no_horizon() {
    let span = UNREACHABLE as usize;
    let segments = vec![
        Segment::new(2, 0, vec![], 0, 1, vec![]),
        Segment::new(2, span, vec![2], 1, 1, vec![]),
        Segment::new(2, span, vec![3], 2, 1, vec![]),
        Segment::new(2, span, vec![1], 3, 1, vec![]),
    ];
    let project = Project {
        duration: 0,
        id: 1,
        resource: Vec::new(),
        precedence: Vec::new(),
        segments: vec![0, 1, 2, 3],
    };
    let mut schedule = Schedule::new(vec![project], segments, Vec::new());
    assert_eq!(schedule.time_windows(), Err(EncodeError::HorizonOutOfRange));
    assert_eq!(schedule.encode(0), Err(EncodeError::HorizonOutOfRange));
}

#[test]
fn with_a_resource_the_encoder_decides() {
    let (projects, segments) = create_projects(
        vec![vec![0], vec![1], vec![0]],
        vec![vec![2], vec![3], vec![]],
        vec![1, 2, 3],
        vec![0, 1, 0],
    );
    let mut schedule = Schedule::new(projects, segments, vec![1]);
    match schedule.encode(0) {
        Ok(text) => {
            assert!(text.starts_with("c 1 2 10 5 6 "));
            assert!(text.contains("\n3 5 6 0\n"));
            assert!(text.ends_with("\n2 10 0\n"));
        }
        Err(EncodeError::Oracle(OracleError::Failed { message })) => {
            assert!(!message.is_empty());
        }
        Err(other) => panic!("unexpected failure {:?}", other),
    }
    assert_eq!(schedule.projects().len(), 3);
}

#[test]
fn positions_are_sorted_by_key_and_stay_in_order() {
    let keys = vec![(true, 1, 0), (false, 2, 0), (false, 1, 0), (false, 1, 0), (false, 1, -4)];
    assert_eq!(stable_order(&keys), vec![4, 2, 3, 1, 0]);
    assert_eq!(stable_order(&Vec::new()), Vec::<usize>::new());
    assert_eq!(stable_order(&vec![(false, 0, 0); 3]), vec![0, 1, 2]);
}

#[test]
fn the_objective_sorts_the_sink_by_time() {
    let mut early = Segment::new(2, 0, vec![], 0, 1, vec![]);
    let mut late = Segment::new(2, 0, vec![], 1, 1, vec![]);
    let mut id_gen = IdGenerator::generator_for_sat();
    late.generate_SAT_vars(&mut id_gen, 4, 5);
    early.generate_SAT_vars(&mut id_gen, 3, 4);
    // `late` has start ids 1, 2 at times 4, 5; `early` has 5, 6 at 3, 4.
    let project = Project {
        duration: 0,
        id: 1,
        resource: Vec::new(),
        precedence: Vec::new(),
        segments: vec![1, 0],
    };
    let schedule = Schedule::new(vec![project], vec![early, late], Vec::new());
    let (clauses, weights) = schedule.objective();
    assert_eq!(
        clauses,
        vec![
            Clause::new(vec![5]),
            Clause::new(vec![1]),
            Clause::new(vec![6]),
            Clause::new(vec![2]),
        ]
    );
    assert_eq!(weights, vec![4, 5, 5, 6]);
}

#[test]
fn comment_line() {
    assert_eq!(first_line(vec![3, 1, 20]), "c 3 1 20 \n");
    assert_eq!(first_line(Vec::new()), "c \n");
}

#[test]
fn document_of_given_clauses() {
    let hard = vec![Clause::new(vec![-1, 2]), Clause::new(vec![-7])];
    let soft = vec![Clause::new(vec![1]), Clause::new(vec![2])];
    assert_eq!(largest_of(&hard), 7);
    let text = write_wcnf(vec![2, 1], hard, soft, vec![4, 9]).unwrap();
    assert_eq!(text, "c 2 1 \np wcnf 4 7 14\n14 -1 2 0\n14 -7 0\n9 2 0\n4 1 0\n");
}

#[test]
fn document_without_clauses() {
    let text = write_wcnf(Vec::new(), Vec::new(), Vec::new(), Vec::new()).unwrap();
    assert_eq!(text, "c \np wcnf 0 0 1\n");
}

#[test]
fn a_hard_weight_beyond_the_machine_is_refused() {
    let soft = vec![Clause::new(vec![1])];
    assert_eq!(
        write_wcnf(Vec::new(), Vec::new(), soft.clone(), vec![usize::MAX]),
        Err(DocumentError::WeightOutOfRange)
    );
    let two = vec![Clause::new(vec![1]), Clause::new(vec![2])];
    assert_eq!(
        write_wcnf(Vec::new(), Vec::new(), two, vec![usize::MAX - 1, 1]),
        Err(DocumentError::WeightOutOfRange)
    );
    assert!(write_wcnf(Vec::new(), Vec::new(), soft, vec![usize::MAX - 1]).is_ok());
}

#[test]
fn the_stages_before_the_encoder_number_the_variables() {
    let mut schedule = chain_of_three();
    let issuer = schedule.prepare(0).unwrap();
    assert_eq!(issuer.0, 12);
    let starts: Vec<Vec<usize>> = schedule
        .segments
        .iter()
        .map(|s| s.variables.iter().map(|v| v.id()).collect())
        .collect();
    assert_eq!(starts, vec![vec![1, 2], vec![5, 6], vec![10]]);
    let windows: Vec<(usize, usize)> =
        schedule.segments.iter().map(|s| (s.early_start, s.latest_start)).collect();
    assert_eq!(windows, vec![(0, 1), (0, 1), (1, 1)]);
}

#[test]
fn the_stages_before_the_encoder_fail_in_their_order() {
    let mut schedule = chain_of_three();
    let before = schedule.segments.clone();
    match schedule.prepare(UNREACHABLE as usize) {
        Err(error) => assert_eq!(error, EncodeError::SpanOutOfRange { segment: 1 }),
        Ok(_) => panic!("a span out of range was accepted"),
    }
    assert_eq!(schedule.segments, before);

    let (projects, segments) = create_projects(vec![vec![]], vec![], vec![1], vec![2]);
    let mut cut_off = Schedule::new(projects, segments, Vec::new());
    match cut_off.prepare(3) {
        Err(error) => assert_eq!(error, EncodeError::Disconnected { segment: 1 }),
        Ok(_) => panic!("a segment without a window was accepted"),
    }
    // The setup has been added, and nothing else.
    let spans: Vec<usize> = cut_off.segments.iter().map(|s| s.duration).collect();
    assert_eq!(spans, vec![4, 5, 1]);
    assert!(cut_off.segments.iter().all(|s| s.variables.is_empty()));
}

#[test]
fn the_document_joins_the_clauses_of_the_encoder() {
    let mut schedule = chain_of_three();
    schedule.prepare(0).unwrap();
    let text = schedule
        .document(vec![Clause::new(vec![-3, 12]), Clause::new(vec![-12, 4])], 12)
        .unwrap();
    assert_eq!(
        text,
        "c 1 2 10 5 6 3 4 7 8 9 11 12 \n\
         p wcnf 14 12 3\n\
         3 -1 3 0\n\
         3 -2 4 0\n\
         3 -5 1 0\n\
         3 -6 1 2 0\n\
         3 -5 7 0\n\
         3 -5 8 0\n\
         3 -6 8 0\n\
         3 -6 9 0\n\
         3 -10 5 0\n\
         3 -10 11 0\n\
         3 5 6 0\n\
         3 -3 12 0\n\
         3 -12 4 0\n\
         2 10 0\n"
    );
}

#[test]
fn the_document_without_cardinality_clauses_is_the_encoding() {
    let mut schedule = chain_of_three();
    let issuer = schedule.prepare(0).unwrap();
    let text = schedule.document(Vec::new(), issuer.current_asignment()).unwrap();
    assert_eq!(chain_of_three().encode(0), Ok(text));
}

#[test]
fn activities_given_out_of_order_are_sorted_by_id() {
    let (projects, arena) = create_projects(
        vec![vec![1], vec![2], vec![3]],
        vec![vec![2], vec![3], vec![]],
        vec![30, 10, 20],
        vec![1, 0, 2],
    );
    let ids: Vec<usize> = projects.iter().map(|p| p.id()).collect();
    assert_eq!(ids, vec![10, 20, 30]);
    let durations: Vec<usize> = projects.iter().map(|p| p.duration()).collect();
    assert_eq!(durations, vec![0, 2, 1]);
    // Segments are made in the order in which the activities are given.
    let parents: Vec<usize> = arena.iter().map(|s| s.parent_project).collect();
    assert_eq!(parents, vec![30, 10, 20, 20, 20]);
    assert_eq!(projects[0].segments, vec![1]);
    assert_eq!(projects[1].segments, vec![2, 3, 4]);
    assert_eq!(projects[2].segments, vec![0]);
    assert_eq!(projects[0].resource, vec![2]);
    // The successor table speaks of the sorted order: 10 before 20 before 30.
    assert_eq!(projects[0].precedence, Vec::<usize>::new());
    assert_eq!(projects[1].precedence, vec![1]);
    assert_eq!(projects[2].precedence, vec![2]);
    let precedence: Vec<Vec<usize>> = arena.iter().map(|s| s.precedence.clone()).collect();
    assert_eq!(
        precedence,
        vec![vec![3, 4], vec![], vec![1], vec![1], vec![2]]
    );
}

#[test]
fn predecessors_are_recorded_by_their_place() {
    let mut id_gen = IdGenerator(0);
    let mut arena = Vec::new();
    let mut projects = vec![
        Project::new(0, 40, vec![], Vec::new(), &mut id_gen, &mut arena),
        Project::new(0, 50, vec![], Vec::new(), &mut id_gen, &mut arena),
    ];
    connect_precedence(&mut projects, &vec![vec![2]]);
    assert_eq!(projects[1].precedence, vec![1]);
    link_with_precedence(&projects, &mut arena);
    assert_eq!(arena[1].precedence, vec![0]);
}
