use rcpsp_wcnf::id_generator::IdGenerator;
use rcpsp_wcnf::sat_seg_var::Clause;
use rcpsp_wcnf::segment::Segment;

#[test]
fn segment_link_test() {}

#[test]
fn a_new_segment_carries_a_setup_when_it_comes_first() {
    let first = Segment::new(1, 2, vec![], 0, 1, vec![3]);
    assert!(first.has_set_up);
    assert_eq!(first.og_duration, 2);
    assert_eq!(first.duration(), 2);
    assert_eq!(first.id(), 0);
    assert_eq!(first.early_start, 0);
    assert_eq!(first.latest_start, 0);
    assert!(!Segment::new(2, 2, vec![], 0, 1, vec![]).has_set_up);
    assert!(!Segment::new(1, 0, vec![], 0, 1, vec![]).has_set_up);
    assert!(!Segment::new(0, 0, vec![], 0, 1, vec![]).has_set_up);
}

#[test]
fn setup_lengthens_first_segments_only() {
    let mut first = Segment::new(1, 2, vec![], 0, 1, vec![]);
    first.add_set_up_time(3);
    assert_eq!(first.duration(), 5);
    assert_eq!(first.og_duration, 2);
    let mut later = Segment::new(2, 2, vec![0], 1, 1, vec![]);
    later.add_set_up_time(3);
    assert_eq!(later.duration(), 2);
    let mut empty = Segment::new(0, 0, vec![], 2, 1, vec![]);
    empty.add_set_up_time(3);
    assert_eq!(empty.duration(), 0);
}

#[test]
fn precedents_are_recorded_by_id() {
    let mut segment = Segment::new(1, 1, vec![4], 9, 2, vec![]);
    let other = Segment::new(1, 1, vec![], 6, 1, vec![]);
    segment.add_precedent(&other);
    assert_eq!(segment.precedence(), &vec![4, 6]);
    let more = vec![Segment::new(1, 1, vec![], 7, 1, vec![]), Segment::new(1, 1, vec![], 8, 3, vec![])];
    segment.add_precedents(&more);
    assert_eq!(segment.precedence(), &vec![4, 6, 7, 8]);
}

#[test]
fn precedence_link_joins_every_last_to_every_first() {
    let mut arena = vec![
        Segment::new(1, 1, vec![], 0, 1, vec![]),
        Segment::new(1, 1, vec![], 1, 1, vec![]),
        Segment::new(1, 1, vec![], 2, 2, vec![]),
        Segment::new(1, 1, vec![0], 3, 2, vec![]),
    ];
    Segment::precedence_link(&mut arena, &vec![0, 1], &vec![2, 3]);
    assert_eq!(arena[2].precedence, vec![0, 1]);
    assert_eq!(arena[3].precedence, vec![0, 0, 1]);
    assert!(arena[0].precedence.is_empty());
    assert!(arena[1].precedence.is_empty());
}

#[test]
fn precedence_link_repeats_for_a_repeated_first() {
    let mut arena = vec![
        Segment::new(1, 1, vec![], 0, 1, vec![]),
        Segment::new(1, 1, vec![], 1, 2, vec![]),
    ];
    Segment::precedence_link(&mut arena, &vec![0], &vec![1, 1]);
    assert_eq!(arena[1].precedence, vec![0, 0]);
}

#[test]
fn an_empty_window_has_no_start_variables() {
    let mut id_gen = IdGenerator::generator_for_sat();
    let mut segment = Segment::new(1, 2, Vec::new(), 0, 1, vec![]);
    segment.generate_SAT_vars(&mut id_gen, 5, 3);
    assert!(segment.variables.is_empty());
    // Instants 5 up to 3 + 2.
    let active: Vec<usize> = segment.uvariables.iter().map(|u| u.time_at()).collect();
    assert_eq!(active, vec![5]);
    assert_eq!(id_gen.0, 2);
}

#[test]
fn start_variables_inherit_the_setup_flag() {
    let mut id_gen = IdGenerator::generator_for_sat();
    let mut segment = Segment::new(1, 2, Vec::new(), 7, 1, vec![4, 5]);
    segment.generate_SAT_vars(&mut id_gen, 0, 0);
    assert_eq!(segment.variables.len(), 1);
    assert!(segment.variables[0].weight());
    assert_eq!(segment.variables[0].segment_id, 7);
    assert_eq!(segment.variables[0].segment_duration(), 2);
    assert_eq!(segment.uvariables.len(), 3);
    assert_eq!(segment.uvariables[2].resource_usage(), &vec![4, 5]);
    assert_eq!(segment.uvariables[2].segment_id, 7);
}

#[test]
fn consistency_clauses_tie_a_start_to_its_instants() {
    let mut id_gen = IdGenerator::generator_for_sat();
    let mut segment = Segment::new(1, 1, Vec::new(), 0, 1, vec![1]);
    segment.generate_SAT_vars(&mut id_gen, 1, 3);
    // Start ids 1..3 at times 1..3; active ids 4..7 at instants 1..4.
    assert_eq!(
        segment.generate_consistency_clause(),
        vec![
            Clause::new(vec![-1, 4]),
            Clause::new(vec![-1, 5]),
            Clause::new(vec![-2, 5]),
            Clause::new(vec![-2, 6]),
            Clause::new(vec![-3, 6]),
            Clause::new(vec![-3, 7]),
        ]
    );
}

#[test]
fn precedence_clauses_ask_for_a_finished_predecessor() {
    let mut id_gen = IdGenerator::generator_for_sat();
    let mut arena = vec![
        Segment::new(2, 2, Vec::new(), 0, 1, vec![]),
        Segment::new(2, 1, vec![0], 1, 2, vec![]),
    ];
    arena[0].generate_SAT_vars(&mut id_gen, 0, 3);
    arena[1].generate_SAT_vars(&mut id_gen, 1, 3);
    // Segment 0: start ids 1..4 at times 0..3, active ids 5..10.
    // Segment 1: start ids 11..13 at times 1..3.
    let ids: Vec<usize> = arena[1].variables.iter().map(|v| v.id()).collect();
    assert_eq!(ids, vec![11, 12, 13]);
    assert_eq!(
        arena[1].generate_precedence_clauses(&arena),
        vec![
            Clause::new(vec![-11]),
            Clause::new(vec![-12, 1]),
            Clause::new(vec![-13, 1, 2]),
        ]
    );
    assert!(arena[0].generate_precedence_clauses(&arena).is_empty());
}

#[test]
fn precedence_clauses_join_all_predecessors() {
    let mut id_gen = IdGenerator::generator_for_sat();
    let mut arena = vec![
        Segment::new(2, 1, Vec::new(), 0, 1, vec![]),
        Segment::new(2, 0, Vec::new(), 1, 2, vec![]),
        Segment::new(2, 1, vec![1, 0], 2, 3, vec![]),
    ];
    arena[0].generate_SAT_vars(&mut id_gen, 0, 1);
    arena[1].generate_SAT_vars(&mut id_gen, 1, 1);
    arena[2].generate_SAT_vars(&mut id_gen, 1, 1);
    // Segment 0: starts 1, 2 (times 0, 1), actives 3..5; segment 1: start 6
    // (time 1), active 7; segment 2: start 8 (time 1).
    assert_eq!(arena[2].variables[0].id(), 8);
    assert_eq!(
        arena[2].generate_precedence_clauses(&arena),
        vec![Clause::new(vec![-8, 6, 1])]
    );
}

#[test]
fn a_segment_as_text() {
    let mut segment = Segment::new(1, 2, vec![4, 6], 9, 2, vec![3, 0, 12]);
    segment.add_set_up_time(1);
    assert_eq!(
        segment.to_string(),
        "Segment with ID: 9 \nParent ID: 2\nDuration: 3\n Resource: [3, 0, 12]  \nPrecedents: [4, 6]\n"
    );
    assert_eq!(
        Segment::new(0, 0, vec![], 0, 1, vec![]).to_string(),
        "Segment with ID: 0 \nParent ID: 1\nDuration: 0\n Resource: []  \nPrecedents: []\n"
    );
}
