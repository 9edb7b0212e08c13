use cpm_scheduler::activity::{Activity, RelType};
use cpm_scheduler::app_state::{CpmApp, EditState, Tab};
use cpm_scheduler::calendar::CalendarDate;

fn sample_app() -> CpmApp {
    let mut app = CpmApp::new();
    app.load_sample();
    app
}

fn edit(app: &mut CpmApp, is_new: bool, id: &str, name: &str, duration: &str, preds: &str, resource: &str) {
    app.edit = EditState {
        open: true,
        is_new,
        id: id.to_string(),
        name: name.to_string(),
        duration: duration.to_string(),
        resource: resource.to_string(),
        predecessors: preds.to_string(),
        error: None,
    };
}

#[test]
fn new_app_state() {
    let app = CpmApp::new();
    assert!(app.project.activities.is_empty());
    assert_eq!(app.project.settings.name, "Untitled Project");
    assert_eq!(app.project.settings.start_date, None);
    assert_eq!(app.project.settings.description, "");
    assert_eq!(app.project.settings.version, 1);
    assert!(!app.project.is_dirty && !app.project.is_scheduled && app.project.file_path.is_none());
    assert_eq!(app.tab, Tab::Schedule);
    assert!(!app.edit.open);
    assert!(!app.settings_open);
    assert!(app.sched_error.is_none());
    assert!(app.confirm_delete.is_none());
    assert_eq!(app.status, "Welcome. Load a sample project or add activities to begin.");
}

#[test]
fn edit_state_for_new_activity() {
    let e = EditState::new_empty();
    assert!(e.open);
    assert!(e.is_new);
    assert_eq!(e.id.chars().count(), 8);
    assert!(e.id.chars().all(|c| c.is_ascii_digit() || ('A'..='F').contains(&c)));
    assert_eq!(e.name, "");
    assert_eq!(e.duration, "1");
    assert_eq!(e.resource, "");
    assert_eq!(e.predecessors, "");
    assert!(e.error.is_none());
    let d = EditState::default();
    assert!(!d.open);
    assert_eq!(d.duration, "");
}

#[test]
fn edit_state_from_activity() {
    let a = Activity::new("E", "Finish", 12).with_predecessor("C").with_predecessor("D").with_resource("Crew");
    let e = EditState::from_activity(&a);
    assert!(e.open);
    assert!(!e.is_new);
    assert_eq!(e.id, "E");
    assert_eq!(e.name, "Finish");
    assert_eq!(e.duration, "12");
    assert_eq!(e.resource, "Crew");
    assert_eq!(e.predecessors, "C, D");
    assert!(e.error.is_none());
}

#[test]
fn load_sample_and_schedule() {
    let mut app = sample_app();
    assert_eq!(app.status, "Sample loaded. Press \u{25b6} Schedule or F5.");
    app.run_schedule();
    assert!(app.project.is_scheduled);
    assert!(app.sched_error.is_none());
    assert_eq!(
        app.status,
        "\u{2713}  Scheduled 5 activities  |  Project duration: 14 days  |  Critical path: 4 activities"
    );
    assert_eq!(app.duration_days(), 14);
    assert_eq!(app.critical_count(), 4);
}

#[test]
fn schedule_error_is_shown() {
    let mut app = CpmApp::new();
    app.run_schedule();
    assert!(!app.project.is_scheduled);
    assert_eq!(app.sched_error, Some("No activities to schedule".to_string()));
    assert_eq!(app.status, "Schedule error: No activities to schedule");

    let mut app = sample_app();
    app.project.activities[0].predecessors.push(cpm_scheduler::activity::Predecessor {
        activity_id: "E".to_string(),
        rel_type: RelType::FS,
        lag: 0,
    });
    app.run_schedule();
    assert_eq!(app.sched_error, Some("Cycle detected involving: A, B, C, D, E".to_string()));
}

#[test]
fn add_activity_through_the_dialog() {
    let mut app = sample_app();
    edit(&mut app, true, "F", "  Handover ", " 3 ", "E, , C ", " Team ");
    app.apply_edit();
    assert!(!app.edit.open);
    assert!(app.edit.error.is_none());
    assert_eq!(app.status, "Added activity 'Handover'.");
    let f = app.project.activities.last().unwrap();
    assert_eq!(f.id, "F");
    assert_eq!(f.name, "Handover");
    assert_eq!(f.duration, 3);
    assert_eq!(f.resource, "Team");
    let preds: Vec<&str> = f.predecessors.iter().map(|p| p.activity_id.as_str()).collect();
    assert_eq!(preds, vec!["E", "C"]);
    assert!(app.project.is_dirty);
    app.run_schedule();
    assert_eq!(app.duration_days(), 17);
}

#[test]
fn update_activity_through_the_dialog() {
    let mut app = sample_app();
    let c = app.project.activities[2].clone();
    app.start_edit(&c);
    app.edit.duration = "10".to_string();
    app.apply_edit();
    assert_eq!(app.status, "Updated activity 'Structure'.");
    assert_eq!(app.project.activities[2].duration, 10);
    app.run_schedule();
    assert_eq!(app.duration_days(), 18);
}

#[test]
fn dialog_errors() {
    let mut app = sample_app();
    edit(&mut app, true, "F", "Name", "2.5", "", "");
    app.apply_edit();
    assert_eq!(app.edit.error, Some("Duration must be a positive number.".to_string()));
    assert!(app.edit.open);
    assert_eq!(app.project.activities.len(), 5);

    edit(&mut app, true, "F", "Name", "0", "", "");
    app.apply_edit();
    assert_eq!(app.edit.error, Some("Duration must be a positive number.".to_string()));

    edit(&mut app, true, "F", "Name", "abc", "", "");
    app.apply_edit();
    assert_eq!(app.edit.error, Some("Duration must be a positive number.".to_string()));

    edit(&mut app, true, "F", "   ", "2", "", "");
    app.apply_edit();
    assert_eq!(app.edit.error, Some("Name cannot be empty.".to_string()));

    edit(&mut app, true, "A", "Name", "2", "", "");
    app.apply_edit();
    assert_eq!(app.edit.error, Some("ID already exists.".to_string()));

    edit(&mut app, true, "F", "Name", "2", "A, GHOST, X", "");
    app.apply_edit();
    assert_eq!(app.edit.error, Some("Unknown predecessor: 'GHOST'".to_string()));
    assert_eq!(app.project.activities.len(), 5);
    assert!(!app.project.is_dirty);
}

#[test]
fn cancel_edit_closes_the_dialog() {
    let mut app = sample_app();
    app.start_add();
    assert!(app.edit.open && app.edit.is_new);
    app.edit.error = Some("x".to_string());
    app.cancel_edit();
    assert!(!app.edit.open);
    assert!(app.edit.error.is_none());
    assert_eq!(app.project.activities.len(), 5);
}

#[test]
fn delete_flow() {
    let mut app = sample_app();
    app.request_delete("D".to_string());
    assert_eq!(app.confirm_delete, Some("D".to_string()));
    app.cancel_delete();
    assert_eq!(app.project.activities.len(), 5);
    app.request_delete("D".to_string());
    app.delete_confirmed();
    assert_eq!(app.status, "Deleted activity 'D'.");
    assert!(app.confirm_delete.is_none());
    let ids: Vec<&str> = app.project.activities.iter().map(|a| a.id.as_str()).collect();
    assert_eq!(ids, vec!["A", "B", "C", "E"]);
    app.delete_confirmed();
    assert_eq!(app.project.activities.len(), 4);
}

#[test]
fn settings_flow() {
    let mut app = sample_app();
    app.open_settings();
    assert!(app.settings_open);
    assert_eq!(app.settings_name, "Sample Construction Project");
    assert_eq!(app.settings_date, "2025-01-06");
    app.settings_name = "Renamed".to_string();
    app.settings_date = "2026-02-28".to_string();
    app.apply_settings();
    assert!(!app.settings_open);
    assert_eq!(app.project.settings.name, "Renamed");
    assert_eq!(app.project.settings.start_date, Some(CalendarDate { year: 2026, month: 2, day: 28 }));
    assert!(app.project.is_dirty);

    app.open_settings();
    app.settings_date = "2026-02-30".to_string();
    app.apply_settings();
    assert_eq!(app.project.settings.start_date, Some(CalendarDate { year: 2026, month: 2, day: 28 }));

    app.open_settings();
    app.settings_name = "Other".to_string();
    app.cancel_settings();
    assert!(!app.settings_open);
    assert_eq!(app.project.settings.name, "Renamed");
}

#[test]
fn open_settings_without_a_date() {
    let mut app = CpmApp::new();
    app.open_settings();
    assert_eq!(app.settings_name, "Untitled Project");
    assert_eq!(app.settings_date, "");
    app.project.settings.start_date = Some(CalendarDate { year: 2025, month: 2, day: 29 });
    app.open_settings();
    assert_eq!(app.settings_date, "");
}

#[test]
fn new_project_and_tabs() {
    let mut app = sample_app();
    app.set_tab(Tab::Gantt);
    assert_eq!(app.tab, Tab::Gantt);
    app.new_project();
    assert!(app.project.activities.is_empty());
    assert_eq!(app.status, "New project.");
    assert_eq!(app.tab, Tab::Gantt);
    assert_eq!(app.duration_days(), 0);
    assert_eq!(app.critical_count(), 0);
}

#[test]
fn settings_round_trip_keeps_name_and_date() {
    let mut app = sample_app();
    app.open_settings();
    app.apply_settings();
    assert_eq!(app.project.settings.name, "Sample Construction Project");
    assert_eq!(app.project.settings.start_date, Some(CalendarDate { year: 2025, month: 1, day: 6 }));

    let far = CalendarDate { year: -44, month: 3, day: 15 };
    app.project.settings.start_date = Some(far);
    app.open_settings();
    assert_eq!(app.settings_date, "-0044-03-15");
    app.apply_settings();
    assert_eq!(app.project.settings.start_date, Some(far));

    let late = CalendarDate { year: 12345, month: 12, day: 31 };
    app.project.settings.start_date = Some(late);
    app.open_settings();
    assert_eq!(app.settings_date, "+12345-12-31");
    app.apply_settings();
    assert_eq!(app.project.settings.start_date, Some(late));

    let early = CalendarDate { year: 999, month: 7, day: 4 };
    app.project.settings.start_date = Some(early);
    app.open_settings();
    assert_eq!(app.settings_date, "0999-07-04");
    app.apply_settings();
    assert_eq!(app.project.settings.start_date, Some(early));

    let mut fresh = CpmApp::new();
    fresh.open_settings();
    fresh.apply_settings();
    assert_eq!(fresh.project.settings.start_date, None);
    assert_eq!(fresh.project.settings.name, "Untitled Project");
}

#[test]
fn saving_an_unchanged_activity_gives_it_back() {
    let mut app = sample_app();
    app.run_schedule();
    let before = app.project.activities.clone();
    let e = before.iter().position(|a| a.id == "E").unwrap();
    let act = before[e].clone();
    app.start_edit(&act);
    assert_eq!(app.edit.predecessors, "C, D");
    app.apply_edit();
    assert!(app.edit.error.is_none());
    assert!(!app.edit.open);
    assert_eq!(app.project.activities.len(), before.len());
    for (j, a) in app.project.activities.iter().enumerate() {
        let b = &before[j];
        assert_eq!(a.id, b.id);
        assert_eq!(a.name, b.name);
        assert_eq!(a.duration, b.duration);
        let pa: Vec<&str> = a.predecessors.iter().map(|p| p.activity_id.as_str()).collect();
        let pb: Vec<&str> = b.predecessors.iter().map(|p| p.activity_id.as_str()).collect();
        assert_eq!(pa, pb);
        assert_eq!(a.resource, b.resource);
        if j == e {
            assert_eq!(a.cpm, cpm_scheduler::activity::CpmResult::default());
        } else {
            assert_eq!(a.cpm, b.cpm);
        }
    }
}
