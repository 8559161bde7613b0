use rcpsp_wcnf::id_generator::IdGenerator;
use rcpsp_wcnf::sat_seg_var::{
    largest_in_row, largest_literal, literal_magnitude, Clause, OracleError, SATSVar, SATUVar,
};
use pyo3::exceptions::PyValueError;
use rcpsp_wcnf::segment::Segment;

#[test]
fn sat_seg_var_clause_generation() {
    //only one segment, with duration 1
    let mut id_gen = IdGenerator::generator_for_sat();
    let resource = vec![1];
    let s_var = SATSVar::new(1, 1, 1, &mut id_gen, resource.clone(), false);
    let u_vars = SATSVar::generate_u_vars(1, 1, 1, &mut id_gen, resource);
    let expected_clause = Clause::new(vec![-1, 2]);
    let got_clauses = s_var.generate_consistency_clause(&u_vars);
    println!("{:?}", got_clauses);
    assert_eq!(expected_clause, got_clauses[0]);
}

#[test]
fn sat_seg_var_clause_generation_segment() {
    let mut id_gen = IdGenerator::generator_for_sat();
    let mut segment = Segment::new(1, 1, Vec::new(), 1, 1, Vec::new());
    let early_start = 1;
    let latest_start = 3;
    segment.generate_SAT_vars(&mut id_gen, early_start, latest_start);
    let generated = segment.variables;
    let expected_amount = 3;
    assert_eq!(expected_amount, generated.len());
}

#[test]
fn python_in_rust() {
    println!(
        "{:?}",
        Clause::python_max(vec![1, 2, 3], vec![1, 2, 3], 3, 0)
    );
}

#[test]
fn the_encoder_answers_or_fails_with_a_message() {
    match Clause::python_max(vec![1, 2], vec![1, 1], 1, 2) {
        Ok(clauses) => {
            assert!(clauses.iter().flatten().all(|l| *l != 0));
        }
        Err(OracleError::Failed { message }) => assert!(!message.is_empty()),
        Err(other) => panic!("unexpected failure {:?}", other),
    }
}

#[test]
fn the_encoder_gives_the_same_answer_twice() {
    let first = Clause::python_max(vec![1, 2, 3], vec![2, 1, 1], 2, 3);
    let second = Clause::python_max(vec![1, 2, 3], vec![2, 1, 1], 2, 3);
    assert_eq!(first.is_ok(), second.is_ok());
    if let (Ok(a), Ok(b)) = (first, second) {
        assert_eq!(a, b);
        assert_eq!(largest_literal(&a), largest_literal(&b));
    }
}

#[test]
fn seed_segment_has_three_start_variables() {
    let mut id_gen = IdGenerator::generator_for_sat();
    let mut segment = Segment::new(1, 1, Vec::new(), 0, 1, vec![1]);
    segment.generate_SAT_vars(&mut id_gen, 1, 3);
    let ids: Vec<usize> = segment.variables.iter().map(|v| v.id()).collect();
    let times: Vec<usize> = segment.variables.iter().map(|v| v.time()).collect();
    assert_eq!(ids, vec![1, 2, 3]);
    assert_eq!(times, vec![1, 2, 3]);
    let active: Vec<(usize, usize)> =
        segment.uvariables.iter().map(|u| (u.id(), u.time_at())).collect();
    assert_eq!(active, vec![(4, 1), (5, 2), (6, 3), (7, 4)]);
    assert_eq!(id_gen.0, 8);
    assert_eq!(segment.early_start, 1);
    assert_eq!(segment.latest_start, 3);
}

#[test]
fn start_variable_takes_the_next_id() {
    let mut id_gen = IdGenerator(9);
    let var = SATSVar::new(4, 2, 7, &mut id_gen, vec![1, 2], true);
    assert_eq!(var.id(), 9);
    assert_eq!(var.time(), 7);
    assert_eq!(var.segment_duration(), 2);
    assert!(var.weight());
    assert_eq!(var.segment_id, 4);
    assert_eq!(id_gen.0, 10);
}

#[test]
fn id_mut_changes_the_id_only() {
    let mut id_gen = IdGenerator(1);
    let mut var = SATSVar::new(4, 2, 7, &mut id_gen, vec![], false);
    *var.id_mut() = 30;
    assert_eq!(var, SATSVar { id: 30, segment_id: 4, segment_duration: 2, time: 7, weight: false });
}

#[test]
fn active_variables_of_a_start() {
    let mut id_gen = IdGenerator(3);
    let vars = SATSVar::generate_u_vars(6, 3, 10, &mut id_gen, vec![2]);
    let seen: Vec<(usize, usize, usize)> =
        vars.iter().map(|u| (u.id(), u.segment_id, u.time_at())).collect();
    assert_eq!(seen, vec![(3, 6, 10), (4, 6, 11), (5, 6, 12)]);
    assert_eq!(vars[1].resource_usage(), &vec![2]);
    assert_eq!(id_gen.0, 6);
}

#[test]
fn a_start_without_duration_has_one_active_variable() {
    let mut id_gen = IdGenerator(3);
    let vars = SATSVar::generate_u_vars(6, 0, 10, &mut id_gen, vec![]);
    assert_eq!(vars, vec![SATUVar::new(3, 6, 10, vec![])]);
    assert_eq!(id_gen.0, 4);
}

#[test]
fn unit_clauses_of_start_variables() {
    let mut id_gen = IdGenerator(5);
    let a = SATSVar::new(0, 0, 0, &mut id_gen, vec![], false);
    let b = SATSVar::new(0, 0, 1, &mut id_gen, vec![], false);
    assert_eq!(a.to_clause(), Clause::new(vec![5]));
    assert_eq!(
        SATSVar::last_to_clause(&vec![a, b]),
        vec![Clause::new(vec![5]), Clause::new(vec![6])]
    );
}

#[test]
fn variables_are_split_by_instant() {
    let times = [5usize, 3, 5, 3, 7];
    let vars: Vec<SATUVar> =
        times.iter().enumerate().map(|(i, t)| SATUVar::new(i + 1, 0, *t, vec![])).collect();
    let mut groups = SATUVar::linear_sum_split(&vars);
    groups.sort();
    assert_eq!(groups, vec![vec![0, 2], vec![1, 3], vec![4]]);
}

#[test]
fn no_variables_give_no_groups() {
    assert!(SATUVar::linear_sum_split(&Vec::new()).is_empty());
}

#[test]
fn clause_lines_end_with_zero() {
    let clause = Clause::new(vec![-1, 2]);
    assert_eq!(clause.wite_to_string_hard(7), "7 -1 2 0");
    assert_eq!(clause.write_to_string_soft(12), "12 -1 2 0");
    assert_eq!(Clause::new(vec![]).wite_to_string_hard(3), "3 0");
    assert_eq!(
        Clause::new(vec![i64::MIN, i64::MAX, 0]).write_to_string_soft(0),
        "0 -9223372036854775808 9223372036854775807 0 0"
    );
}

#[test]
fn hard_lines_keep_their_order() {
    let clauses = vec![Clause::new(vec![1]), Clause::new(vec![-2, 30])];
    assert_eq!(Clause::write_list_to_string_hard(clauses, 100), "100 1 0\n100 -2 30 0\n");
    assert_eq!(Clause::write_list_to_string_hard(Vec::new(), 100), "");
}

#[test]
fn soft_lines_come_last_first() {
    let clauses = vec![Clause::new(vec![1]), Clause::new(vec![2]), Clause::new(vec![3])];
    assert_eq!(
        Clause::write_list_to_string_soft(clauses.clone(), vec![10, 20, 30]),
        "30 3 0\n20 2 0\n10 1 0\n"
    );
    assert_eq!(Clause::write_list_to_string_soft(clauses, vec![10, 20]), "20 2 0\n10 1 0\n");
}

#[test]
fn problem_line() {
    assert_eq!(Clause::write_first_line(3, 4, 5), "p wcnf 3 4 5\n");
    assert_eq!(Clause::write_first_line(0, 0, 1), "p wcnf 0 0 1\n");
    assert_eq!(Clause::write_first_line(1200, 10, 99), "p wcnf 1200 10 99\n");
}

#[test]
fn appended_clauses_are_moved_and_copied() {
    let mut a = vec![Clause::new(vec![1])];
    let mut b = vec![Clause::new(vec![2]), Clause::new(vec![3])];
    let joined = Clause::append_clauses(&mut a, &mut b);
    assert_eq!(joined, vec![Clause::new(vec![1]), Clause::new(vec![2]), Clause::new(vec![3])]);
    assert_eq!(a, joined);
    assert!(b.is_empty());
}

#[test]
fn integer_lists_become_clauses() {
    assert_eq!(
        Clause::integer_vec_to_clause(vec![vec![1, -2], vec![], vec![3]]),
        vec![Clause::new(vec![1, -2]), Clause::new(vec![]), Clause::new(vec![3])]
    );
}

#[test]
fn largest_literal_is_the_largest_magnitude() {
    assert_eq!(largest_literal(&vec![vec![1, -9, 3], vec![], vec![8]]), 9);
    assert_eq!(largest_literal(&vec![]), 0);
    assert_eq!(largest_in_row(&vec![3, -8, 5]), 8);
    assert_eq!(largest_in_row(&vec![]), 0);
    assert_eq!(largest_literal(&vec![vec![], vec![]]), 0);
    assert_eq!(literal_magnitude(i64::MIN), 9_223_372_036_854_775_808);
    assert_eq!(literal_magnitude(-4), 4);
    assert_eq!(literal_magnitude(4), 4);
}

#[test]
fn reconcile_moves_the_issuer_past_the_answer() {
    let mut id_gen = IdGenerator(5);
    let mut output = vec![Clause::new(vec![1])];
    let outcome = Clause::reconcile(vec![vec![-3, 12], vec![7]], &mut id_gen, &mut output);
    assert_eq!(outcome, Ok(()));
    assert_eq!(id_gen.0, 13);
    assert_eq!(
        output,
        vec![Clause::new(vec![1]), Clause::new(vec![-3, 12]), Clause::new(vec![7])]
    );
}

#[test]
fn reconcile_never_moves_the_issuer_back() {
    let mut id_gen = IdGenerator(50);
    let mut output = Vec::new();
    assert_eq!(Clause::reconcile(vec![vec![-3, 12]], &mut id_gen, &mut output), Ok(()));
    assert_eq!(id_gen.0, 50);
    assert_eq!(Clause::reconcile(Vec::new(), &mut id_gen, &mut output), Ok(()));
    assert_eq!(Clause::reconcile(vec![vec![]], &mut id_gen, &mut output), Ok(()));
    assert_eq!(id_gen.0, 50);
    assert_eq!(Clause::reconcile(vec![vec![49]], &mut id_gen, &mut output), Ok(()));
    assert_eq!(id_gen.0, 50);
    assert_eq!(Clause::reconcile(vec![vec![50]], &mut id_gen, &mut output), Ok(()));
    assert_eq!(id_gen.0, 51);
}

#[test]
fn reconcile_is_a_function_of_its_arguments() {
    let mut first_gen = IdGenerator(4);
    let mut second_gen = IdGenerator(4);
    let mut first = Vec::new();
    let mut second = Vec::new();
    let answer = vec![vec![1, 2, -9], vec![-9, 10]];
    assert_eq!(
        Clause::reconcile(answer.clone(), &mut first_gen, &mut first),
        Clause::reconcile(answer, &mut second_gen, &mut second)
    );
    assert_eq!(first, second);
    assert_eq!(first_gen.0, second_gen.0);
    assert_eq!(first_gen.0, 11);
}

#[test]
fn reconcile_rejects_an_id_without_successor() {
    let mut id_gen = IdGenerator(5);
    let mut output = vec![Clause::new(vec![1])];
    let outcome = Clause::reconcile(vec![vec![2], vec![i64::MIN]], &mut id_gen, &mut output);
    assert_eq!(outcome, Err(OracleError::IdOutOfRange));
    assert_eq!(id_gen.0, 5);
    assert_eq!(output, vec![Clause::new(vec![1])]);
    let outcome = Clause::reconcile(vec![vec![i64::MAX]], &mut id_gen, &mut output);
    assert_eq!(outcome, Err(OracleError::IdOutOfRange));
}

#[test]
fn no_resources_need_no_encoder() {
    let mut id_gen = IdGenerator(9);
    let vars = vec![SATUVar::new(1, 0, 0, vec![]), SATUVar::new(2, 0, 1, vec![])];
    assert_eq!(Clause::u_vec_accum(&vars, &mut id_gen, &Vec::new()), Ok(Vec::new()));
    assert_eq!(id_gen.0, 9);
}

#[test]
fn cardinality_clauses_stay_below_the_issuer() {
    let mut id_gen = IdGenerator(4);
    let vars = vec![
        SATUVar::new(1, 0, 0, vec![1]),
        SATUVar::new(2, 1, 0, vec![1]),
        SATUVar::new(3, 2, 0, vec![1]),
    ];
    match Clause::u_vec_accum(&vars, &mut id_gen, &vec![1]) {
        Ok(clauses) => {
            assert!(id_gen.0 >= 4);
            let largest = clauses
                .iter()
                .flat_map(|clause| clause.arguments.iter())
                .map(|literal| literal.unsigned_abs())
                .max()
                .unwrap_or(0);
            assert_eq!(id_gen.0 as u64, (largest + 1).max(4));
            for clause in &clauses {
                for literal in &clause.arguments {
                    assert!(literal.unsigned_abs() < id_gen.0 as u64);
                }
            }
        }
        Err(OracleError::Failed { message }) => {
            assert!(!message.is_empty());
            assert!(id_gen.0 >= 4);
        }
        Err(other) => panic!("unexpected failure {:?}", other),
    }
}

#[test]
fn clauses_of_the_encoder_are_handed_on() {
    let clauses = vec![vec![-1, 2], vec![], vec![3]];
    assert_eq!(Clause::answer_of(Ok(clauses.clone())), Ok(clauses));
    assert_eq!(Clause::answer_of(Ok(Vec::new())), Ok(Vec::new()));
}

#[test]
fn a_failure_of_the_interpreter_is_reported_with_its_message() {
    let outcome = Clause::answer_of(Err(PyValueError::new_err("boom")));
    assert_eq!(
        outcome,
        Err(OracleError::Failed { message: "ValueError: boom".to_string() })
    );
}

#[test]
fn the_encoder_never_reports_an_id_out_of_range() {
    for bound in 0..3 {
        match Clause::python_max(vec![1, 2, 3], vec![1, 1, 1], bound, 3) {
            Ok(_) => {}
            Err(error) => assert!(matches!(error, OracleError::Failed { .. })),
        }
    }
}

#[test]
fn a_request_lists_ids_and_demands_of_a_group() {
    let vars = vec![
        SATUVar::new(11, 0, 5, vec![1, 2, 3]),
        SATUVar::new(12, 1, 6, vec![4, 5, 6]),
        SATUVar::new(13, 2, 5, vec![7, 8, 9]),
    ];
    let capacities = vec![20, 30, 40];
    let issuer = IdGenerator(14);
    assert_eq!(
        Clause::cardinality_request(&vars, &vec![0, 2], 1, &capacities, &issuer),
        (vec![11, 13], vec![2, 8], 30, 13)
    );
    assert_eq!(
        Clause::cardinality_request(&vars, &vec![2, 0, 2], 0, &capacities, &IdGenerator(1)),
        (vec![13, 11, 13], vec![7, 1, 7], 20, 0)
    );
    assert_eq!(
        Clause::cardinality_request(&vars, &Vec::new(), 2, &capacities, &issuer),
        (Vec::new(), Vec::new(), 40, 13)
    );
}

#[test]
fn without_variables_the_encoder_is_not_asked() {
    let mut id_gen = IdGenerator(9);
    assert_eq!(Clause::u_vec_accum(&Vec::new(), &mut id_gen, &vec![3, 4]), Ok(Vec::new()));
    assert_eq!(id_gen.0, 9);
}
