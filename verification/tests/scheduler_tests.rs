use cpm_scheduler::activity::{Activity, CpmResult, Predecessor, RelType};
use cpm_scheduler::scheduler::{run_cpm, SchedulerError, SchedulerResult};

fn sample_project() -> Vec<Activity> {
    vec![
        Activity::new("A", "Start", 2),
        Activity::new("B", "Foundation", 4).with_predecessor("A"),
        Activity::new("C", "Structure", 6).with_predecessor("B"),
        Activity::new("D", "Electrical", 3).with_predecessor("B"),
        Activity::new("E", "Finish", 2).with_predecessor("C").with_predecessor("D"),
    ]
}

fn linked(id: &str, duration: i32, pred: &str, rel_type: RelType, lag: i32) -> Activity {
    let mut a = Activity::new(id, id, duration);
    a.predecessors.push(Predecessor { activity_id: pred.to_string(), rel_type, lag });
    a
}

fn find<'a>(result: &'a SchedulerResult, id: &str) -> &'a Activity {
    result.activities.iter().find(|a| a.id == id).unwrap()
}

fn cpm_of(result: &SchedulerResult, id: &str) -> CpmResult {
    find(result, id).cpm
}

fn result(es: i128, ef: i128, ls: i128, lf: i128, tf: i128, ff: i128, critical: bool) -> CpmResult {
    CpmResult { es, ef, ls, lf, tf, ff, critical }
}

#[test]
fn test_critical_path_duration() {
    let result = run_cpm(&sample_project()).unwrap();
    assert!((result.project_duration as f64 - 14.0).abs() < 1e-9, "Expected 14 days");
}

#[test]
fn test_critical_activities() {
    let result = run_cpm(&sample_project()).unwrap();
    let crit: Vec<&str> = result.critical_path.iter().map(String::as_str).collect();
    assert!(crit.contains(&"A"));
    assert!(crit.contains(&"B"));
    assert!(crit.contains(&"C"));
    assert!(crit.contains(&"E"));
    assert!(!crit.contains(&"D"), "D should NOT be critical");
}

#[test]
fn test_float_d() {
    let result = run_cpm(&sample_project()).unwrap();
    let d = result.activities.iter().find(|a| a.id == "D").unwrap();
    // D: ES=6 EF=9, LS=9 LF=12  ->  TF = LS-ES = 3
    // E starts at ES=12; D finishes at EF=9  ->  FF = 12-9 = 3
    assert!((d.cpm.tf as f64 - 3.0).abs() < 1e-9, "TF of D should be 3, got {}", d.cpm.tf);
    assert!((d.cpm.ff as f64 - 3.0).abs() < 1e-9, "FF of D should be 3, got {}", d.cpm.ff);
}

#[test]
fn test_es_ef_a() {
    let result = run_cpm(&sample_project()).unwrap();
    let a = result.activities.iter().find(|a| a.id == "A").unwrap();
    assert!((a.cpm.es as f64 - 0.0).abs() < 1e-9);
    assert!((a.cpm.ef as f64 - 2.0).abs() < 1e-9);
}

#[test]
fn test_cycle_detection() {
    let acts = vec![
        Activity::new("X", "X", 1).with_predecessor("Y"),
        Activity::new("Y", "Y", 1).with_predecessor("X"),
    ];
    assert!(matches!(run_cpm(&acts), Err(SchedulerError::CycleDetected(_))));
}

#[test]
fn test_unknown_predecessor() {
    let acts = vec![Activity::new("A", "A", 1).with_predecessor("GHOST")];
    assert!(matches!(run_cpm(&acts), Err(SchedulerError::UnknownPredecessor { .. })));
}

#[test]
fn sample_table_matches_documented_results() {
    let r = run_cpm(&sample_project()).unwrap();
    assert_eq!(r.activities.len(), 5);
    assert_eq!(cpm_of(&r, "A"), result(0, 2, 0, 2, 0, 0, true));
    assert_eq!(cpm_of(&r, "B"), result(2, 6, 2, 6, 0, 0, true));
    assert_eq!(cpm_of(&r, "C"), result(6, 12, 6, 12, 0, 0, true));
    assert_eq!(cpm_of(&r, "D"), result(6, 9, 9, 12, 3, 3, false));
    assert_eq!(cpm_of(&r, "E"), result(12, 14, 12, 14, 0, 0, true));
    assert_eq!(r.project_duration, 14);
    assert_eq!(r.critical_path, vec!["A", "B", "C", "E"]);
    assert!(r.warnings.is_empty());
}

#[test]
fn output_keeps_tasks_and_follows_precedence() {
    let input = sample_project();
    let r = run_cpm(&input).unwrap();
    for a in &input {
        let b = find(&r, &a.id);
        assert_eq!(b.name, a.name);
        assert_eq!(b.duration, a.duration);
        assert_eq!(b.predecessors.len(), a.predecessors.len());
    }
    let pos = |id: &str| r.activities.iter().position(|a| a.id == id).unwrap();
    for a in &r.activities {
        for p in &a.predecessors {
            assert!(pos(&p.activity_id) < pos(&a.id));
        }
    }
}

#[test]
fn previous_results_are_ignored() {
    let mut input = sample_project();
    input[3].cpm = result(100, 100, 100, 100, 100, 100, true);
    let r = run_cpm(&input).unwrap();
    assert_eq!(cpm_of(&r, "D"), result(6, 9, 9, 12, 3, 3, false));
}

#[test]
fn empty_project_is_refused() {
    let acts: Vec<Activity> = Vec::new();
    let e = run_cpm(&acts).err().unwrap();
    assert!(matches!(e, SchedulerError::EmptyProject));
    assert_eq!(e.to_string(), "No activities to schedule");
}

#[test]
fn unknown_predecessor_names_the_first_bad_link() {
    let acts = vec![
        Activity::new("A", "A", 1),
        Activity::new("B", "B", 1).with_predecessor("A").with_predecessor("P"),
        Activity::new("C", "C", 1).with_predecessor("Q"),
    ];
    match run_cpm(&acts) {
        Err(SchedulerError::UnknownPredecessor { activity, pred }) => {
            assert_eq!(activity, "B");
            assert_eq!(pred, "P");
        }
        _ => panic!("expected an unknown predecessor"),
    }
    let e = run_cpm(&acts).err().unwrap();
    assert_eq!(e.to_string(), "Activity 'B' references unknown predecessor 'P'");
}

#[test]
fn unknown_predecessor_is_reported_before_a_cycle() {
    let acts = vec![
        Activity::new("X", "X", 1).with_predecessor("Y"),
        Activity::new("Y", "Y", 1).with_predecessor("X").with_predecessor("GHOST"),
    ];
    assert!(matches!(run_cpm(&acts), Err(SchedulerError::UnknownPredecessor { .. })));
}

#[test]
fn cycle_lists_every_blocked_activity_in_input_order() {
    let acts = vec![
        Activity::new("Z", "Z", 1).with_predecessor("X"),
        Activity::new("W", "W", 1),
        Activity::new("X", "X", 1).with_predecessor("Y"),
        Activity::new("Y", "Y", 1).with_predecessor("X"),
    ];
    let e = run_cpm(&acts).err().unwrap();
    match &e {
        SchedulerError::CycleDetected(ids) => assert_eq!(ids, &vec!["Z", "X", "Y"]),
        _ => panic!("expected a cycle"),
    }
    assert_eq!(e.to_string(), "Cycle detected involving: Z, X, Y");
}

#[test]
fn self_loop_is_a_cycle() {
    let acts = vec![Activity::new("A", "A", 3).with_predecessor("A")];
    let e = run_cpm(&acts).err().unwrap();
    assert_eq!(e.to_string(), "Cycle detected involving: A");
}

#[test]
fn duplicate_ids_are_refused() {
    let acts = vec![Activity::new("A", "First", 1), Activity::new("A", "Second", 2)];
    match run_cpm(&acts) {
        Err(SchedulerError::CycleDetected(ids)) => assert!(ids.is_empty()),
        _ => panic!("expected duplicate ids to be refused"),
    }
}

#[test]
fn single_activity() {
    let r = run_cpm(&vec![Activity::new("A", "Only", 5)]).unwrap();
    assert_eq!(cpm_of(&r, "A"), result(0, 5, 0, 5, 0, 0, true));
    assert_eq!(r.project_duration, 5);
    assert_eq!(r.critical_path, vec!["A"]);
}

#[test]
fn zero_duration_milestone() {
    let acts = vec![Activity::new("A", "Work", 3), Activity::new("M", "Done", 0).with_predecessor("A")];
    let r = run_cpm(&acts).unwrap();
    assert_eq!(cpm_of(&r, "M"), result(3, 3, 3, 3, 0, 0, true));
    assert_eq!(r.project_duration, 3);
}

#[test]
fn finish_to_start_with_lag() {
    let acts = vec![Activity::new("A", "A", 2), linked("B", 3, "A", RelType::FS, 4)];
    let r = run_cpm(&acts).unwrap();
    assert_eq!(cpm_of(&r, "A"), result(0, 2, 0, 2, 0, 0, true));
    assert_eq!(cpm_of(&r, "B"), result(6, 9, 6, 9, 0, 0, true));
    assert_eq!(r.project_duration, 9);
}

#[test]
fn start_to_start_link() {
    let acts = vec![Activity::new("A", "A", 3), linked("B", 2, "A", RelType::SS, 1)];
    let r = run_cpm(&acts).unwrap();
    assert_eq!(cpm_of(&r, "A"), result(0, 3, 0, 3, 0, 0, true));
    assert_eq!(cpm_of(&r, "B"), result(1, 3, 1, 3, 0, 0, true));
    assert_eq!(r.project_duration, 3);
}

#[test]
fn finish_to_finish_link() {
    let acts = vec![Activity::new("A", "A", 4), linked("B", 2, "A", RelType::FF, 0)];
    let r = run_cpm(&acts).unwrap();
    assert_eq!(cpm_of(&r, "A"), result(0, 4, 0, 4, 0, 0, true));
    assert_eq!(cpm_of(&r, "B"), result(2, 4, 2, 4, 0, 0, true));
}

#[test]
fn start_to_finish_link() {
    let acts = vec![Activity::new("A", "A", 2), linked("B", 3, "A", RelType::SF, 5)];
    let r = run_cpm(&acts).unwrap();
    assert_eq!(cpm_of(&r, "A"), result(0, 2, 0, 2, 0, 0, true));
    assert_eq!(cpm_of(&r, "B"), result(2, 5, 2, 5, 0, 0, true));
    assert_eq!(r.project_duration, 5);
}

#[test]
fn lead_never_starts_before_day_zero() {
    let acts = vec![Activity::new("A", "A", 1), linked("B", 1, "A", RelType::SS, -5)];
    let r = run_cpm(&acts).unwrap();
    assert_eq!(cpm_of(&r, "B"), result(0, 1, 0, 1, 0, 0, true));
    assert_eq!(cpm_of(&r, "A"), result(0, 1, 5, 6, 5, 5, false));
    assert_eq!(r.critical_path, vec!["B"]);
}

#[test]
fn no_critical_path_gives_a_warning() {
    let acts = vec![Activity::new("K", "K", 10), linked("M", 1, "K", RelType::FS, -8)];
    let r = run_cpm(&acts).unwrap();
    assert_eq!(cpm_of(&r, "K"), result(0, 10, 7, 17, 7, 0, false));
    assert_eq!(cpm_of(&r, "M"), result(2, 3, 9, 10, 7, 7, false));
    assert_eq!(r.project_duration, 10);
    assert!(r.critical_path.is_empty());
    assert_eq!(r.warnings, vec!["No critical path found \u{2014} all activities have float."]);
}

#[test]
fn parallel_branches_take_the_longest() {
    let acts = vec![
        Activity::new("S", "S", 1),
        Activity::new("P", "P", 5).with_predecessor("S"),
        Activity::new("Q", "Q", 2).with_predecessor("S"),
        Activity::new("F", "F", 1).with_predecessor("P").with_predecessor("Q"),
    ];
    let r = run_cpm(&acts).unwrap();
    assert_eq!(cpm_of(&r, "Q"), result(1, 3, 4, 6, 3, 3, false));
    assert_eq!(cpm_of(&r, "F"), result(6, 7, 6, 7, 0, 0, true));
    assert_eq!(r.project_duration, 7);
    assert_eq!(r.critical_path, vec!["S", "P", "F"]);
}

#[test]
fn schedule_rules_hold_on_the_sample() {
    // LF >= EF, TF = LS - ES = LF - EF >= 0, 0 <= FF <= TF, critical <=> TF == 0
    let r = run_cpm(&sample_project()).unwrap();
    for a in &r.activities {
        let c = a.cpm;
        assert!(c.lf >= c.ef);
        assert_eq!(c.tf, c.ls - c.es);
        assert_eq!(c.tf, c.lf - c.ef);
        assert!(0 <= c.ff && c.ff <= c.tf);
        assert_eq!(c.critical, c.tf == 0);
        assert_eq!(c.ef, c.es + a.duration as i128);
        assert!(c.ef <= r.project_duration);
    }
}

#[test]
fn rel_type_text_and_default() {
    assert_eq!(RelType::FS.to_string(), "FS");
    assert_eq!(RelType::SS.to_string(), "SS");
    assert_eq!(RelType::FF.to_string(), "FF");
    assert_eq!(RelType::SF.to_string(), "SF");
    assert_eq!(RelType::default(), RelType::FS);
}

#[test]
fn results_do_not_depend_on_input_order() {
    let forward = run_cpm(&sample_project()).unwrap();
    let mut reversed_input = sample_project();
    reversed_input.reverse();
    let backward = run_cpm(&reversed_input).unwrap();
    assert_eq!(forward.project_duration, backward.project_duration);
    for a in &forward.activities {
        assert_eq!(a.cpm, cpm_of(&backward, &a.id));
    }
    let again = run_cpm(&forward.activities).unwrap();
    for a in &forward.activities {
        assert_eq!(a.cpm, cpm_of(&again, &a.id));
    }
}

#[test]
fn adding_a_checked_activity_keeps_the_project_schedulable() {
    let mut acts = sample_project();
    acts.push(Activity::new("F", "Handover", 1).with_predecessor("E").with_predecessor("A"));
    let r = run_cpm(&acts).unwrap();
    assert_eq!(r.project_duration, 15);
}

#[test]
fn long_durations_do_not_overflow() {
    let big = i32::MAX;
    let acts = vec![
        Activity::new("A", "A", big),
        Activity::new("B", "B", big).with_predecessor("A"),
        linked("C", big, "B", RelType::FS, big),
    ];
    let r = run_cpm(&acts).unwrap();
    let day = big as i128;
    assert_eq!(r.project_duration, 4 * day);
    assert_eq!(cpm_of(&r, "C"), result(3 * day, 4 * day, 3 * day, 4 * day, 0, 0, true));
}
