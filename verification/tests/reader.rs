use rcpsp_wcnf::names::{get_ending, strip_ending};
use rcpsp_wcnf::reader::{
    get_horizon, get_number_of_activities, get_number_of_resources, line_to_numbers, read_input,
    Instance,
};
use rcpsp_wcnf::schedule::Schedule;

fn file() -> Vec<String> {
    let text = "\
************************************************************************
file with basedata            : tiny.bas
initial value random generator: 1
************************************************************************
projects                      :  1
jobs (incl. supersource/sink ):  3
horizon                       :  10
RESOURCES
  - renewable                 :  1   R
  - nonrenewable              :  0   N
  - doubly constrained        :  0   D
************************************************************************
PROJECT INFORMATION:
pronr.  #jobs rel.date duedate tardcost  MPM-Time
    1      1      0       10       0       10
************************************************************************
PRECEDENCE RELATIONS:
jobnr.    #modes  #successors   successors
   1        1          1           2
   2        1          1           3
   3        1          0
************************************************************************
REQUESTS/DURATIONS:
jobnr. mode duration  R 1
------------------------------------------------------------------------
  1      1     0       0
  2      1     1       1
  3      1     0       0
************************************************************************
RESOURCEAVAILABILITIES:
  R 1
    1
************************************************************************";
    text.lines().map(|l| l.to_string()).collect()
}

fn tiny() -> Instance {
    Instance {
        resources: vec![vec![0], vec![1], vec![0]],
        successors: vec![vec![2], vec![3], vec![]],
        activities: vec![1, 2, 3],
        durations: vec![0, 1, 0],
        capacities: vec![1],
    }
}

#[test]
fn numbers_of_a_line() {
    assert_eq!(line_to_numbers("  1  2 3\t4 "), Some(vec![1, 2, 3, 4]));
    assert_eq!(line_to_numbers(""), Some(vec![]));
    assert_eq!(line_to_numbers("   "), Some(vec![]));
    assert_eq!(line_to_numbers("007"), Some(vec![7]));
    assert_eq!(line_to_numbers("0"), Some(vec![0]));
    assert_eq!(line_to_numbers("18446744073709551615"), Some(vec![usize::MAX]));
}

#[test]
fn a_line_with_anything_else_has_no_numbers() {
    assert_eq!(line_to_numbers("12a"), None);
    assert_eq!(line_to_numbers("1 -1"), None);
    assert_eq!(line_to_numbers("1,2"), None);
    assert_eq!(line_to_numbers("1 2 x"), None);
    assert_eq!(line_to_numbers("18446744073709551616"), None);
    assert_eq!(line_to_numbers("99999999999999999999999999"), None);
}

#[test]
fn count_behind_the_colon() {
    assert_eq!(get_number_of_activities("jobs (incl. supersource/sink ):  32"), Some(32));
    assert_eq!(get_number_of_activities("jobs:32"), Some(32));
    assert_eq!(get_number_of_activities("a: 3 : 4"), Some(3));
    assert_eq!(get_horizon("horizon                       :  158"), Some(158));
}

#[test]
fn a_line_without_a_single_count_has_none() {
    assert_eq!(get_number_of_activities("no colon 3"), None);
    assert_eq!(get_number_of_activities("x: 3 4"), None);
    assert_eq!(get_number_of_activities("x: "), None);
    assert_eq!(get_number_of_activities("x:"), None);
    assert_eq!(get_number_of_activities("x: three"), None);
    assert_eq!(get_horizon(""), None);
}

#[test]
fn number_of_resources_is_the_first_word() {
    assert_eq!(get_number_of_resources("  - renewable                 :  4   R"), Some(4));
    assert_eq!(get_number_of_resources("  - nonrenewable              :  0   N"), Some(0));
    assert_eq!(get_number_of_resources("x:7"), Some(7));
    assert_eq!(get_number_of_resources("x: 7 8 : 9"), Some(7));
    assert_eq!(get_number_of_resources("x: R 4"), None);
    assert_eq!(get_number_of_resources("x:   "), None);
    assert_eq!(get_number_of_resources("x"), None);
    assert_eq!(get_number_of_resources("x: 4R"), None);
}

#[test]
fn a_project_file_is_read() {
    assert_eq!(read_input(&file()), Some(tiny()));
}

#[test]
fn a_truncated_file_is_not_read() {
    let lines = file();
    for keep in 0..32 {
        assert_eq!(read_input(&lines[..keep].to_vec()), None);
    }
    assert!(read_input(&lines[..32].to_vec()).is_some());
}

#[test]
fn a_malformed_row_is_not_read() {
    let mut lines = file();
    lines[19] = "   2        1          1           x".to_string();
    assert_eq!(read_input(&lines), None);
    let mut lines = file();
    lines[26] = "  1".to_string();
    assert_eq!(read_input(&lines), None);
    let mut lines = file();
    lines[31] = "".to_string();
    assert_eq!(read_input(&lines), None);
    let mut lines = file();
    lines[5] = "jobs three".to_string();
    assert_eq!(read_input(&lines), None);
    let mut lines = file();
    lines[20] = "   3".to_string();
    assert_eq!(read_input(&lines), None);
}

#[test]
fn modes_count_the_rows_of_durations() {
    let mut lines = file();
    lines[19] = "   2        2          1           3".to_string();
    lines.insert(27, "  2      2     5       1".to_string());
    let instance = read_input(&lines).unwrap();
    assert_eq!(instance.durations, vec![0, 1, 5, 0]);
    assert_eq!(instance.resources, vec![vec![0], vec![1], vec![1], vec![0]]);
    assert_eq!(instance.activities, vec![1, 2, 3]);
    assert_eq!(instance.capacities, vec![1]);
}

#[test]
fn a_schedule_is_built_from_an_instance() {
    let schedule = Schedule::from_instance(tiny()).unwrap();
    assert_eq!(schedule.resources, vec![1]);
    assert_eq!(schedule.projects().len(), 3);
    assert_eq!(schedule.segments.len(), 3);
    assert_eq!(schedule.segments[1].precedence, vec![0]);
    assert_eq!(schedule.segments[2].precedence, vec![1]);
    assert_eq!(schedule.segments[1].resource, vec![1]);
    assert_eq!(schedule.projects()[1].precedence(), &vec![1]);
}

#[test]
fn an_instance_read_from_a_file_is_encoded() {
    let mut instance = read_input(&file()).unwrap();
    instance.capacities = Vec::new();
    let mut schedule = Schedule::from_instance(instance).unwrap();
    let text = schedule.encode(0).unwrap();
    assert!(text.starts_with("c 1 2 10 5 6 3 4 7 8 9 11 \np wcnf 12 11 3\n"));
    assert!(text.ends_with("3 5 6 0\n2 10 0\n"));
}

#[test]
fn an_unfit_instance_gives_no_schedule() {
    let mut no_activity = tiny();
    no_activity.durations = Vec::new();
    assert!(Schedule::from_instance(no_activity).is_none());

    let mut beyond = tiny();
    beyond.successors[0] = vec![4];
    assert!(Schedule::from_instance(beyond).is_none());

    let mut nobody = tiny();
    nobody.successors[0] = vec![0];
    assert!(Schedule::from_instance(nobody).is_none());

    let mut own = tiny();
    own.successors[1] = vec![2];
    assert!(Schedule::from_instance(own).is_none());

    let mut twice = tiny();
    twice.activities = vec![1, 2, 1];
    assert!(Schedule::from_instance(twice).is_none());

    let mut demand = tiny();
    demand.capacities = vec![1, 1];
    assert!(Schedule::from_instance(demand).is_none());

    let mut rows = tiny();
    rows.successors = vec![vec![], vec![], vec![], vec![]];
    assert!(Schedule::from_instance(rows).is_none());

    let mut endless = tiny();
    endless.durations[1] = usize::MAX;
    assert!(Schedule::from_instance(endless).is_none());

    let mut vast = tiny();
    vast.durations[1] = usize::MAX - 1;
    assert!(Schedule::from_instance(vast).is_none());
}

#[test]
fn stem_and_ending_of_a_file_name() {
    assert_eq!(strip_ending("data/test/j301_0.sm"), "j301_0");
    assert_eq!(get_ending("data/test/j301_0.sm"), "sm");
    assert_eq!(strip_ending("j30.sm/j3010_1.sm"), "j3010_1");
    assert_eq!(strip_ending("a.b.c"), "a");
    assert_eq!(get_ending("a.b.c"), "c");
    assert_eq!(strip_ending("plain"), "plain");
    assert_eq!(get_ending("plain"), "plain");
    assert_eq!(strip_ending("dir.d/"), "");
    assert_eq!(get_ending("dir.d/"), "");
    assert_eq!(strip_ending(""), "");
    assert_eq!(get_ending("x/.sm"), "sm");
    assert_eq!(strip_ending("x/.sm"), "");
    assert_eq!(get_ending("é/ü.sm"), "sm");
    assert_eq!(strip_ending("é/ü.sm"), "ü");
}

#[test]
fn activities_come_out_by_rising_id() {
    let mut instance = tiny();
    instance.activities = vec![7, 3, 5];
    instance.successors = vec![vec![], vec![], vec![]];
    let schedule = Schedule::from_instance(instance).unwrap();
    let ids: Vec<usize> = schedule.projects().iter().map(|p| p.id()).collect();
    assert_eq!(ids, vec![3, 5, 7]);
    let durations: Vec<usize> = schedule.projects().iter().map(|p| p.duration()).collect();
    assert_eq!(durations, vec![1, 0, 0]);
}
