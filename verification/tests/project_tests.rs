use cpm_scheduler::activity::{Activity, CpmResult, Predecessor, RelType};
use cpm_scheduler::calendar::CalendarDate;
use cpm_scheduler::project::{position_of, title_for, Project, ProjectSettings};
use cpm_scheduler::scheduler::run_cpm;

fn ids(p: &Project) -> Vec<String> {
    p.activities.iter().map(|a| a.id.clone()).collect()
}

fn pred_ids(a: &Activity) -> Vec<String> {
    a.predecessors.iter().map(|p| p.activity_id.clone()).collect()
}

#[test]
fn defaults() {
    let s = ProjectSettings::default();
    assert_eq!(s.name, "Untitled Project");
    assert_eq!(s.start_date, None);
    assert_eq!(s.description, "");
    assert_eq!(s.version, 1);
    let p = Project::default();
    assert!(p.activities.is_empty());
    assert!(!p.is_dirty);
    assert!(!p.is_scheduled);
    assert!(p.file_path.is_none());
    assert_eq!(CpmResult::default(), CpmResult { es: 0, ef: 0, ls: 0, lf: 0, tf: 0, ff: 0, critical: false });
}

#[test]
fn sample_project_contents() {
    let p = Project::load_sample();
    assert_eq!(p.settings.name, "Sample Construction Project");
    assert_eq!(p.settings.description, "Demo project for CPM scheduler");
    assert_eq!(p.settings.start_date, Some(CalendarDate { year: 2025, month: 1, day: 6 }));
    assert_eq!(ids(&p), vec!["A", "B", "C", "D", "E"]);
    let names: Vec<&str> = p.activities.iter().map(|a| a.name.as_str()).collect();
    assert_eq!(names, vec!["Start", "Foundation", "Structure", "Electrical", "Finish"]);
    let durations: Vec<i32> = p.activities.iter().map(|a| a.duration).collect();
    assert_eq!(durations, vec![2, 4, 6, 3, 2]);
    assert_eq!(p.activities[3].resource, "Electrical Team");
    assert_eq!(pred_ids(&p.activities[4]), vec!["C", "D"]);
    assert!(!p.is_dirty);
    assert!(!p.is_scheduled);
}

#[test]
fn sample_project_schedules_to_fourteen_days() {
    let p = Project::load_sample();
    let r = run_cpm(&p.activities).unwrap();
    assert_eq!(r.project_duration, 14);
}

#[test]
fn add_activity_appends_and_marks_dirty() {
    let mut p = Project::load_sample();
    p.is_scheduled = true;
    p.add_activity(Activity::new("F", "Handover", 1).with_predecessor("E"));
    assert_eq!(ids(&p), vec!["A", "B", "C", "D", "E", "F"]);
    assert!(p.is_dirty);
    assert!(!p.is_scheduled);
}

#[test]
fn remove_activity_drops_it_and_its_links() {
    let mut p = Project::load_sample();
    p.remove_activity("D");
    assert_eq!(ids(&p), vec!["A", "B", "C", "E"]);
    assert_eq!(pred_ids(&p.activities[3]), vec!["C"]);
    assert!(p.is_dirty);
    assert!(!p.is_scheduled);
    let r = run_cpm(&p.activities).unwrap();
    assert_eq!(r.project_duration, 14);
}

#[test]
fn remove_unknown_activity_keeps_the_list() {
    let mut p = Project::load_sample();
    p.remove_activity("Q");
    assert_eq!(ids(&p), vec!["A", "B", "C", "D", "E"]);
    assert!(p.is_dirty);
}

#[test]
fn add_then_remove_restores_the_list() {
    let mut p = Project::load_sample();
    p.add_activity(Activity::new("N", "New", 7).with_predecessor("A"));
    p.remove_activity("N");
    let q = Project::load_sample();
    assert_eq!(ids(&p), ids(&q));
    for (a, b) in p.activities.iter().zip(q.activities.iter()) {
        assert_eq!(pred_ids(a), pred_ids(b));
        assert_eq!(a.duration, b.duration);
    }
}

#[test]
fn update_activity_replaces_by_id() {
    let mut p = Project::load_sample();
    p.update_activity(Activity::new("C", "Steel Structure", 8).with_predecessor("B"));
    assert_eq!(p.activities[2].name, "Steel Structure");
    assert_eq!(p.activities[2].duration, 8);
    assert!(p.is_dirty);
    let r = run_cpm(&p.activities).unwrap();
    assert_eq!(r.project_duration, 16);
}

#[test]
fn update_of_unknown_id_changes_nothing() {
    let mut p = Project::load_sample();
    p.update_activity(Activity::new("Z", "Nothing", 8));
    assert_eq!(ids(&p), vec!["A", "B", "C", "D", "E"]);
    assert!(!p.is_dirty);
}

#[test]
fn position_of_finds_the_first() {
    let p = Project::load_sample();
    assert_eq!(position_of(&p.activities, &"C".to_string()), Some(2));
    assert_eq!(position_of(&p.activities, &"X".to_string()), None);
}

#[test]
fn titles() {
    let mut p = Project::default();
    assert_eq!(p.title(), "CPM Scheduler \u{2014} Untitled Project");
    p.is_dirty = true;
    assert_eq!(p.title(), "CPM Scheduler \u{2014} Untitled Project \u{2022}");
    p.file_path = Some(std::path::PathBuf::from("/tmp/plans/site.json"));
    assert_eq!(p.title(), "CPM Scheduler \u{2014} Untitled Project \u{2014} site.json \u{2022}");
    assert_eq!(
        title_for(&"Plan".to_string(), &Some("a.json".to_string()), false),
        "CPM Scheduler \u{2014} Plan \u{2014} a.json"
    );
}

#[test]
fn activity_builders() {
    let a = Activity::new("A", "Dig", 3).with_predecessor("X").with_resource("Crew");
    assert_eq!(a.id, "A");
    assert_eq!(a.name, "Dig");
    assert_eq!(a.duration, 3);
    assert_eq!(a.resource, "Crew");
    assert_eq!(a.wbs, "");
    assert_eq!(a.predecessors.len(), 1);
    assert_eq!(a.predecessors[0].activity_id, "X");
    assert_eq!(a.predecessors[0].rel_type, RelType::FS);
    assert_eq!(a.predecessors[0].lag, 0);
    let p = Predecessor { activity_id: "Y".to_string(), rel_type: RelType::SF, lag: -2 };
    let q = p.duplicate();
    assert_eq!(q.activity_id, "Y");
    assert_eq!(q.rel_type, RelType::SF);
    assert_eq!(q.lag, -2);
    let c = CpmResult { es: 1, ef: 2, ls: 3, lf: 4, tf: 2, ff: 1, critical: false };
    let b = a.copy_with_result(c);
    assert_eq!(b.cpm, c);
    assert_eq!(b.id, "A");
    assert_eq!(pred_ids(&b), vec!["X"]);
}

#[test]
fn new_uid_is_eight_uppercase_hex_digits() {
    let u = Activity::new_uid();
    assert_eq!(u.chars().count(), 8);
    assert!(u.chars().all(|c| c.is_ascii_digit() || ('A'..='F').contains(&c)));
    let v = Activity::new_uid();
    assert_ne!(u, v);
}

#[test]
fn opened_project_has_no_unsaved_changes() {
    let mut p = Project::load_sample();
    p.add_activity(Activity::new("F", "Extra", 1));
    assert!(p.is_dirty);
    p.mark_opened(std::path::PathBuf::from("/tmp/x/plan.json"));
    assert!(!p.is_dirty);
    assert_eq!(p.file_path, Some(std::path::PathBuf::from("/tmp/x/plan.json")));
    assert_eq!(p.activities.len(), 6);
    assert_eq!(p.title(), "CPM Scheduler \u{2014} Sample Construction Project \u{2014} plan.json");
}

#[test]
fn removing_a_middle_activity_keeps_the_project_schedulable() {
    let mut p = Project::load_sample();
    p.remove_activity("B");
    assert_eq!(ids(&p), vec!["A", "C", "D", "E"]);
    assert!(p.activities.iter().all(|a| a.predecessors.iter().all(|q| q.activity_id != "B")));
    let r = run_cpm(&p.activities).unwrap();
    assert_eq!(r.project_duration, 8);
}

#[test]
fn removal_keeps_links_known_even_with_a_cycle() {
    let mut p = Project::default();
    p.add_activity(Activity::new("X", "X", 1).with_predecessor("Y"));
    p.add_activity(Activity::new("Y", "Y", 1).with_predecessor("X"));
    p.add_activity(Activity::new("Z", "Z", 1).with_predecessor("Y").with_predecessor("X"));
    p.remove_activity("X");
    assert_eq!(ids(&p), vec!["Y", "Z"]);
    for a in &p.activities {
        for q in &a.predecessors {
            assert!(p.activities.iter().any(|b| b.id == q.activity_id));
            assert_ne!(q.activity_id, "X");
        }
    }
    let r = run_cpm(&p.activities).unwrap();
    assert_eq!(r.project_duration, 2);
}
