use cpm_scheduler::activity::{Activity, CpmResult};
use cpm_scheduler::display::{
    chart_days, chart_tick, critical_link, float_class, network_layers, schedule_badge, FloatClass,
};
use cpm_scheduler::project::Project;
use cpm_scheduler::scheduler::run_cpm;

fn with_float(tf: i128, critical: bool) -> CpmResult {
    CpmResult { es: 0, ef: 0, ls: 0, lf: 0, tf, ff: 0, critical }
}

#[test]
fn float_classes() {
    assert_eq!(float_class(false, &with_float(0, true)), FloatClass::Unscheduled);
    assert_eq!(float_class(true, &with_float(0, true)), FloatClass::Critical);
    assert_eq!(float_class(true, &with_float(3, false)), FloatClass::NearCritical);
    assert_eq!(float_class(true, &with_float(4, false)), FloatClass::NearCritical);
    assert_eq!(float_class(true, &with_float(5, false)), FloatClass::HasFloat);
    assert_eq!(float_class(true, &with_float(40, false)), FloatClass::HasFloat);
}

#[test]
fn gantt_scale() {
    let none: Vec<Activity> = Vec::new();
    assert_eq!(chart_days(&none), 1);
    let r = run_cpm(&Project::load_sample().activities).unwrap();
    assert_eq!(chart_days(&r.activities), 14);
    assert_eq!(chart_tick(1), 1);
    assert_eq!(chart_tick(12), 1);
    assert_eq!(chart_tick(13), 2);
    assert_eq!(chart_tick(14), 2);
    assert_eq!(chart_tick(24), 2);
    assert_eq!(chart_tick(25), 3);
}

#[test]
fn network_columns_of_the_sample() {
    let r = run_cpm(&Project::load_sample().activities).unwrap();
    let acts = r.activities;
    let layers = network_layers(&acts);
    let starts: Vec<i128> = layers.iter().map(|l| l.start).collect();
    assert_eq!(starts, vec![0, 2, 6, 12]);
    let ids = |k: usize| -> Vec<String> { layers[k].members.iter().map(|&i| acts[i].id.clone()).collect() };
    assert_eq!(ids(0), vec!["A"]);
    assert_eq!(ids(1), vec!["B"]);
    let mut third = ids(2);
    third.sort();
    assert_eq!(third, vec!["C", "D"]);
    assert_eq!(ids(3), vec!["E"]);
}

#[test]
fn network_columns_of_unscheduled_activities() {
    let acts = vec![Activity::new("A", "A", 1), Activity::new("B", "B", 1)];
    let layers = network_layers(&acts);
    assert_eq!(layers.len(), 1);
    assert_eq!(layers[0].start, 0);
    assert_eq!(layers[0].members, vec![0, 1]);
    let empty: Vec<Activity> = Vec::new();
    assert!(network_layers(&empty).is_empty());
}

#[test]
fn critical_links_of_the_sample() {
    let r = run_cpm(&Project::load_sample().activities).unwrap();
    let acts = r.activities;
    let e = acts.iter().position(|a| a.id == "E").unwrap();
    let b = acts.iter().position(|a| a.id == "B").unwrap();
    let d = acts.iter().position(|a| a.id == "D").unwrap();
    // E's links: C (critical) and D (not critical)
    assert!(critical_link(&acts, e, 0));
    assert!(!critical_link(&acts, e, 1));
    assert!(critical_link(&acts, b, 0));
    assert!(!critical_link(&acts, d, 0));
}

#[test]
fn badges() {
    let mut p = Project::default();
    assert_eq!(schedule_badge(&p), None);
    p = Project::load_sample();
    assert_eq!(schedule_badge(&p), Some("\u{25cb} Not scheduled".to_string()));
    p.is_scheduled = true;
    assert_eq!(schedule_badge(&p), Some("\u{25cf} Scheduled".to_string()));
}
