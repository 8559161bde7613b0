use rcpsp_wcnf::id_generator::IdGenerator;

#[test]
fn id_generator_unique_id_gen() {
    let mut generator = IdGenerator(0);
    let id1 = generator.next_id();
    let id2 = generator.next_id();
    assert_ne!(id1, id2);
}

#[test]
fn ids_are_consecutive() {
    let mut generator = IdGenerator(7);
    assert_eq!(generator.next_id(), 7);
    assert_eq!(generator.next_id(), 8);
    assert_eq!(generator.next_id(), 9);
    assert_eq!(generator.0, 10);
}

#[test]
fn literal_ids_start_at_one() {
    let mut generator = IdGenerator::generator_for_sat();
    assert_eq!(generator.next_id(), 1);
    assert_eq!(generator.current_asignment(), 1);
}

#[test]
fn segment_ids_start_at_zero() {
    let mut generator = IdGenerator::generator_for_segment();
    assert_eq!(generator.next_id(), 0);
    assert_eq!(generator.current_asignment(), 0);
}

#[test]
fn new_current_sets_the_last_issued_id() {
    let mut generator = IdGenerator::generator_for_sat();
    generator.new_current(41);
    assert_eq!(generator.current_asignment(), 41);
    assert_eq!(generator.next_id(), 42);
}
