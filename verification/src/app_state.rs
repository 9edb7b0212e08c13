//! The state behind the scheduler's window and what each user action does to it: the
//! edit and settings dialogs, scheduling, deleting, and the status line.
use vstd::prelude::*;
use crate::activity::{upper_hex, Activity, CpmResult, Predecessor, RelType};
use crate::input::{comma_pieces, integer_value, parse_i32, split_commas, trim, trimmed};
use crate::network::texts;
use crate::project::{first_with_id, is_sample_project, position_of, Project};
use crate::scheduler::{
    all_known, all_schedulable, blocked_ids, first_unknown, run_cpm, schedule_of, SchedulerError,
    SchedulerResult,
};
use crate::network::{critical_ids, ids_distinct, network};
use crate::calendar::{calendar_date, format_iso_date, iso_date, iso_text, parse_iso_date, valid_date, CalendarDate};
use crate::text::{count_text, decimal, int_text, join, joined, push_text};

verus! {

/// The dialog that adds or edits an activity, with the text the user typed.
#[derive(Debug, Clone)]
pub struct EditState {
    pub open: bool,
    pub is_new: bool,
    pub id: String,
    pub name: String,
    pub duration: String,
    pub resource: String,
    pub predecessors: String,
    pub error: Option<String>,
}

impl Default for EditState {
    fn default() -> (r: Self)
        ensures
            !r.open,
            !r.is_new,
            r.id@.len() == 0,
            r.name@.len() == 0,
            r.duration@.len() == 0,
            r.resource@.len() == 0,
            r.predecessors@.len() == 0,
            r.error is None,
    {
        EditState {
            open: false,
            is_new: false,
            id: String::new(),
            name: String::new(),
            duration: String::new(),
            resource: String::new(),
            predecessors: String::new(),
            error: None,
        }
    }
}

/// The ids that the links of `preds` name, in order.
pub open spec fn link_ids(preds: Seq<Predecessor>) -> Seq<Seq<char>> {
    preds.map_values(|p: Predecessor| p.activity_id@)
}

/// `e` is the dialog open on the existing activity `act`: its id, name, duration in
/// decimal, resource, and the ids of its predecessors separated by ", ".
pub open spec fn opened_on(e: EditState, act: Activity) -> bool {
    &&& e.open
    &&& !e.is_new
    &&& e.id@ == act.id@
    &&& e.name@ == act.name@
    &&& e.duration@ == decimal(act.duration as int)
    &&& e.resource@ == act.resource@
    &&& e.predecessors@ == joined(link_ids(act.predecessors@), ", "@)
    &&& e.error is None
}

impl EditState {
    /// The dialog open on an existing activity: its id, name, duration in decimal,
    /// resource, and the ids of its predecessors separated by ", ".
    pub fn from_activity(act: &Activity) -> (r: EditState)
        ensures
            opened_on(r, *act),
    {
        let mut ids: Vec<String> = Vec::new();
        let mut i: usize = 0;
        while i < act.predecessors.len()
            invariant
                i <= act.predecessors@.len(),
                texts(ids@) == link_ids(act.predecessors@.subrange(0, i as int)),
            decreases act.predecessors@.len() - i,
        {
            let ghost before = texts(ids@);
            ids.push(act.predecessors[i].activity_id.clone());
            proof {
                assert(texts(ids@) =~= before.push(act.predecessors@[i as int].activity_id@));
                assert(link_ids(act.predecessors@.subrange(0, i + 1)) =~= link_ids(
                    act.predecessors@.subrange(0, i as int),
                ).push(act.predecessors@[i as int].activity_id@));
            }
            i += 1;
        }
        proof {
            assert(act.predecessors@.subrange(0, act.predecessors@.len() as int) =~= act.predecessors@);
        }
        EditState {
            open: true,
            is_new: false,
            id: act.id.clone(),
            name: act.name.clone(),
            duration: int_text(act.duration as i128),
            resource: act.resource.clone(),
            predecessors: join(&ids, ", "),
            error: None,
        }
    }

    /// The dialog open for a new activity: a fresh id, a duration of one day, the rest empty.
    pub fn new_empty() -> (r: EditState)
        ensures
            r.open,
            r.is_new,
            r.id@.len() == 8,
            forall|i: int| 0 <= i < 8 ==> upper_hex(#[trigger] r.id@[i]),
            r.name@.len() == 0,
            r.duration@ == "1"@,
            r.resource@.len() == 0,
            r.predecessors@.len() == 0,
            r.error is None,
    {
        EditState {
            open: true,
            is_new: true,
            id: Activity::new_uid(),
            name: String::new(),
            duration: "1".to_string(),
            resource: String::new(),
            predecessors: String::new(),
            error: None,
        }
    }
}

/// The tab shown in the main panel.
#[derive(Debug, Clone, Copy, PartialEq, Eq, Structural)]
pub enum Tab {
    Schedule,
    Gantt,
    Network,
}

/// The state of the scheduler window.
pub struct CpmApp {
    pub project: Project,
    pub tab: Tab,
    pub edit: EditState,
    pub settings_open: bool,
    pub settings_name: String,
    pub settings_date: String,
    pub sched_error: Option<String>,
    pub status: String,
    pub confirm_delete: Option<String>,
}

/// The trimmed, non-empty pieces, in order.
pub open spec fn listed_ids(pieces: Seq<Seq<char>>) -> Seq<Seq<char>>
    decreases pieces.len(),
{
    if pieces.len() == 0 {
        Seq::empty()
    } else if trimmed(pieces.last()).len() == 0 {
        listed_ids(pieces.drop_last())
    } else {
        listed_ids(pieces.drop_last()).push(trimmed(pieces.last()))
    }
}

/// The predecessor ids typed in the dialog: the comma-separated entries, trimmed, without
/// the empty ones.
pub open spec fn entered_ids(e: EditState) -> Seq<Seq<char>> {
    listed_ids(comma_pieces(e.predecessors@))
}

/// The duration typed in the dialog, when it is a positive whole number of days (durations
/// are whole days).
pub open spec fn entered_duration(e: EditState) -> Option<int> {
    match integer_value(trimmed(e.duration@)) {
        Some(v) => if 0 < v <= i32::MAX {
            Some(v)
        } else {
            None
        },
        None => None,
    }
}

/// Some activity has id `id`.
pub open spec fn has_activity(acts: Seq<Activity>, id: Seq<char>) -> bool {
    exists|j: int| 0 <= j < acts.len() && #[trigger] acts[j].id@ == id
}

/// The first of `ids` that no activity has, if any.
pub open spec fn first_missing(acts: Seq<Activity>, ids: Seq<Seq<char>>) -> Option<int> {
    if exists|k: int| 0 <= k < ids.len() && !has_activity(acts, #[trigger] ids[k]) {
        Some(
            choose|k: int|
                0 <= k < ids.len() && !has_activity(acts, #[trigger] ids[k]) && forall|k2: int|
                    0 <= k2 < k ==> has_activity(acts, ids[k2]),
        )
    } else {
        None
    }
}

/// Activity `a` is what the dialog `e` describes, with duration `dur`.
pub open spec fn built_from_edit(a: Activity, e: EditState, dur: int) -> bool {
    &&& a.id@ == e.id@
    &&& a.name@ == trimmed(e.name@)
    &&& a.duration == dur
    &&& link_ids(a.predecessors@) == entered_ids(e)
    &&& forall|i: int|
        0 <= i < a.predecessors@.len() ==> (#[trigger] a.predecessors@[i]).rel_type == RelType::FS
            && a.predecessors@[i].lag == 0
    &&& a.resource@ == trimmed(e.resource@)
    &&& a.wbs@.len() == 0
    &&& a.cpm == CpmResult::blank()
}

/// `new` is `old` with the dialog showing the error `msg`.
pub open spec fn shows_edit_error(old: CpmApp, new: CpmApp, msg: Seq<char>) -> bool {
    &&& new.edit.error matches Some(m) && m@ == msg
    &&& new == (CpmApp { edit: EditState { error: new.edit.error, ..old.edit }, ..old })
}

/// `new` is `old` after the activity `a` of the dialog was added or saved.
pub open spec fn applied_edit(old: CpmApp, new: CpmApp, a: Activity) -> bool {
    let acts = old.project.activities@;
    &&& if old.edit.is_new {
        &&& new.project.activities@ == acts.push(a)
        &&& new.project.is_dirty
        &&& !new.project.is_scheduled
        &&& new.status@ == "Added activity '"@ + a.name@ + "'."@
    } else {
        &&& match first_with_id(acts, a.id@) {
            Some(i) => {
                &&& new.project.activities@ == acts.update(i, a)
                &&& new.project.is_dirty
                &&& !new.project.is_scheduled
            },
            None => {
                &&& new.project.activities@ == acts
                &&& new.project.is_dirty == old.project.is_dirty
                &&& new.project.is_scheduled == old.project.is_scheduled
            },
        }
        &&& new.status@ == "Updated activity '"@ + a.name@ + "'."@
    }
    &&& new.project.settings == old.project.settings
    &&& new.project.file_path == old.project.file_path
    &&& new.edit == (EditState { open: false, error: None, ..old.edit })
    &&& new.tab == old.tab
    &&& new.settings_open == old.settings_open
    &&& new.settings_name == old.settings_name
    &&& new.settings_date == old.settings_date
    &&& new.sched_error == old.sched_error
    &&& new.confirm_delete == old.confirm_delete
}

/// The message for a duration that is not a positive whole number of days.
pub open spec fn bad_duration_message() -> Seq<char> {
    "Duration must be a positive number."@
}

/// The activities can be scheduled: there are some, every link names one of them, no two
/// share an id, and none depends on a cycle.
pub open spec fn schedulable_input(input: Seq<Activity>) -> bool {
    &&& input.len() > 0
    &&& all_known(network(input))
    &&& ids_distinct(network(input))
    &&& all_schedulable(network(input))
}

/// The status line after a successful run.
pub open spec fn scheduled_message(n: int, pd: int, ncp: int) -> Seq<char> {
    "\u{2713}  Scheduled "@ + decimal(n) + " activities  |  Project duration: "@ + decimal(pd)
        + " days  |  Critical path: "@ + decimal(ncp) + " activities"@
}

/// Why the activities cannot be scheduled, as the scheduler words it.
pub open spec fn failure_text(input: Seq<Activity>) -> Seq<char> {
    let net = network(input);
    if input.len() == 0 {
        "No activities to schedule"@
    } else if !all_known(net) {
        let (a, i) = choose|a: int, i: int| first_unknown(net, a, i);
        "Activity '"@ + net[a].id + "' references unknown predecessor '"@ + net[a].links[i].pred + "'"@
    } else {
        "Cycle detected involving: "@ + joined(blocked_ids(net, input.len() as int), ", "@)
    }
}

/// There is at most one first unknown link.
proof fn lemma_first_unknown_unique(net: Seq<crate::network::Task>, a: int, i: int, a2: int, i2: int)
    requires
        first_unknown(net, a, i),
        first_unknown(net, a2, i2),
    ensures
        a == a2 && i == i2,
{
    if a < a2 {
        assert(crate::scheduler::unknown_link(net, a, i));
    } else if a2 < a {
        assert(crate::scheduler::unknown_link(net, a2, i2));
    } else if i < i2 {
        assert(crate::scheduler::unknown_link(net, a, i));
    } else if i2 < i {
        assert(crate::scheduler::unknown_link(net, a2, i2));
    }
}

/// The message of the error that the scheduler returns is `failure_text`.
proof fn lemma_failure_text(input: Seq<Activity>, e: SchedulerError)
    requires
        (input.len() == 0) <==> e matches SchedulerError::EmptyProject,
        (e matches SchedulerError::UnknownPredecessor { .. }) <==> (input.len() > 0 && !all_known(network(input))),
        e matches SchedulerError::UnknownPredecessor { activity, pred } ==> exists|a: int, i: int|
            #[trigger] first_unknown(network(input), a, i) && activity@ == network(input)[a].id && pred@
                == network(input)[a].links[i].pred,
        e matches SchedulerError::CycleDetected(ids) ==> crate::network::texts(ids@) == blocked_ids(
            network(input),
            input.len() as int,
        ),
    ensures
        e.text() == failure_text(input),
{
    let net = network(input);
    match e {
        SchedulerError::UnknownPredecessor { activity, pred } => {
            let (a, i) = choose|a: int, i: int|
                #[trigger] first_unknown(net, a, i) && activity@ == net[a].id && pred@ == net[a].links[i].pred;
            let (a2, i2) = choose|a: int, i: int| first_unknown(net, a, i);
            lemma_first_unknown_unique(net, a, i, a2, i2);
        },
        _ => {},
    }
}

/// The text of the start-date field: the date written year-month-day, or nothing when
/// there is no date or the day does not exist.
pub open spec fn date_field(start: Option<CalendarDate>) -> Seq<char> {
    match start {
        Some(d) => if valid_date(d.year as int, d.month as int, d.day as int) {
            iso_text(d.year as int, d.month as int, d.day as int)
        } else {
            Seq::empty()
        },
        None => Seq::empty(),
    }
}

/// `new` is `old` with the settings dialog open on the project's name and start date.
/// The date field reads back as the start date whenever it is not empty.
pub open spec fn settings_opened(old: CpmApp, new: CpmApp) -> bool {
    &&& new.settings_open
    &&& new.settings_name@ == old.project.settings.name@
    &&& new.settings_date@ == date_field(old.project.settings.start_date)
    &&& new.settings_date@.len() > 0 ==> iso_date(new.settings_date@) == old.project.settings.start_date
    &&& new == (CpmApp {
        settings_open: true,
        settings_name: new.settings_name,
        settings_date: new.settings_date,
        ..old
    })
}

/// `new` is `old` with the settings dialog applied: the project takes the name, and the
/// start date when the date field gives one (an empty field gives none); the project has
/// unsaved changes and the dialog is closed.
pub open spec fn settings_applied(old: CpmApp, new: CpmApp) -> bool {
    &&& new.project.settings.name@ == old.settings_name@
    &&& new.project.settings.start_date == match iso_date(old.settings_date@) {
        Some(d) => Some(d),
        None => old.project.settings.start_date,
    }
    &&& old.settings_date@.len() == 0 ==> new.project.settings.start_date == old.project.settings.start_date
    &&& new.project.settings.description == old.project.settings.description
    &&& new.project.settings.version == old.project.settings.version
    &&& new.project.activities == old.project.activities
    &&& new.project.file_path == old.project.file_path
    &&& new.project.is_scheduled == old.project.is_scheduled
    &&& new.project.is_dirty
    &&& !new.settings_open
    &&& new.settings_name == old.settings_name
    &&& new.settings_date == old.settings_date
    &&& new.tab == old.tab
    &&& new.edit == old.edit
    &&& new.sched_error == old.sched_error
    &&& new.status == old.status
    &&& new.confirm_delete == old.confirm_delete
}

/// What applying the activity dialog does: the first check that fails (the duration is a
/// positive whole number of days, the name is not blank, a new activity's id is not taken,
/// every predecessor exists) shows its message and changes nothing else; when all pass, the
/// activity the dialog describes is added or saved.
pub open spec fn edit_outcome(old: CpmApp, new: CpmApp) -> bool {
    let e = old.edit;
    let acts = old.project.activities@;
    if entered_duration(e) is None {
        shows_edit_error(old, new, bad_duration_message())
    } else if trimmed(e.name@).len() == 0 {
        shows_edit_error(old, new, "Name cannot be empty."@)
    } else if e.is_new && has_activity(acts, e.id@) {
        shows_edit_error(old, new, "ID already exists."@)
    } else if first_missing(acts, entered_ids(e)) is Some {
        shows_edit_error(
            old,
            new,
            "Unknown predecessor: '"@ + entered_ids(e)[first_missing(acts, entered_ids(e))->0] + "'"@,
        )
    } else {
        exists|a: Activity|
            built_from_edit(a, e, entered_duration(e)->0) && #[trigger] applied_edit(
                old,
                new,
                a,
            )
    }
}

impl CpmApp {
    /// The window as it opens: an empty project on the Schedule tab and a welcome message.
    pub fn new() -> (r: CpmApp)
        ensures
            r.project.activities@.len() == 0,
            r.project.settings.name@ == "Untitled Project"@,
            r.project.settings.start_date is None,
            r.project.settings.description@.len() == 0,
            r.project.settings.version == 1,
            !r.project.is_dirty,
            !r.project.is_scheduled,
            r.project.file_path is None,
            r.tab == Tab::Schedule,
            !r.edit.open,
            !r.edit.is_new,
            r.edit.id@.len() == 0,
            r.edit.name@.len() == 0,
            r.edit.duration@.len() == 0,
            r.edit.resource@.len() == 0,
            r.edit.predecessors@.len() == 0,
            r.edit.error is None,
            !r.settings_open,
            r.settings_name@.len() == 0,
            r.settings_date@.len() == 0,
            r.sched_error is None,
            r.status@ == "Welcome. Load a sample project or add activities to begin."@,
            r.confirm_delete is None,
    {
        CpmApp {
            project: Project::default(),
            tab: Tab::Schedule,
            edit: EditState::default(),
            settings_open: false,
            settings_name: String::new(),
            settings_date: String::new(),
            sched_error: None,
            status: "Welcome. Load a sample project or add activities to begin.".to_string(),
            confirm_delete: None,
        }
    }

    /// Checks the dialog and, when it is in order, adds (or saves) its activity.
    ///
    /// The checks, in order: the duration is a positive whole number of days, the name is
    /// not blank, a new activity's id is not taken, and every predecessor exists. The first
    /// that fails shows its message in the dialog and changes nothing else.
    pub fn apply_edit(&mut self)
        ensures
            edit_outcome(*old(self), *final(self)),
    {
        let ghost e = self.edit;
        let duration: i32 = match parse_i32(trim(self.edit.duration.as_str())) {
            Some(d) => {
                if d > 0 {
                    d
                } else {
                    self.edit.error = Some("Duration must be a positive number.".to_string());
                    return;
                }
            },
            None => {
                self.edit.error = Some("Duration must be a positive number.".to_string());
                return;
            },
        };
        let name = trim(self.edit.name.as_str()).to_string();
        if name.as_str().is_empty() {
            self.edit.error = Some("Name cannot be empty.".to_string());
            return;
        }
        if self.edit.is_new {
            match position_of(&self.project.activities, &self.edit.id) {
                Some(_) => {
                    self.edit.error = Some("ID already exists.".to_string());
                    return;
                },
                None => {},
            }
        }
        let ghost acts = self.project.activities@;
        proof {
            if e.is_new {
                assert(!has_activity(acts, e.id@));
            }
        }
        // the predecessor ids, as typed
        let pieces = split_commas(self.edit.predecessors.as_str());
        let mut preds: Vec<Predecessor> = Vec::new();
        let mut i: usize = 0;
        while i < pieces.len()
            invariant
                *self == *old(self),
                e == old(self).edit,
                acts == old(self).project.activities@,
                entered_duration(e) == Some(duration as int),
                name@ == trimmed(e.name@),
                trimmed(e.name@).len() > 0,
                !(e.is_new && has_activity(acts, e.id@)),
                texts(pieces@) == comma_pieces(e.predecessors@),
                i <= pieces@.len(),
                link_ids(preds@) == listed_ids(texts(pieces@).subrange(0, i as int)),
                forall|i2: int|
                    0 <= i2 < preds@.len() ==> (#[trigger] preds@[i2]).rel_type == RelType::FS && preds@[i2].lag == 0,
            decreases pieces@.len() - i,
        {
            let t = trim(pieces[i].as_str());
            let ghost before = link_ids(preds@);
            proof {
                let pre = texts(pieces@).subrange(0, i as int);
                let post = texts(pieces@).subrange(0, i + 1);
                assert(post.drop_last() =~= pre);
                assert(post.last() == pieces@[i as int]@);
            }
            if !t.is_empty() {
                preds.push(Predecessor { activity_id: t.to_string(), rel_type: RelType::FS, lag: 0 });
                proof {
                    assert(link_ids(preds@) =~= before.push(t@));
                }
            }
            i += 1;
        }
        proof {
            assert(texts(pieces@).subrange(0, pieces@.len() as int) =~= texts(pieces@));
            assert(link_ids(preds@) == entered_ids(e));
        }
        // every predecessor must exist
        let mut k: usize = 0;
        while k < preds.len()
            invariant
                *self == *old(self),
                e == old(self).edit,
                acts == old(self).project.activities@,
                entered_duration(e) == Some(duration as int),
                name@ == trimmed(e.name@),
                trimmed(e.name@).len() > 0,
                !(e.is_new && has_activity(acts, e.id@)),
                link_ids(preds@) == entered_ids(e),
                forall|i2: int|
                    0 <= i2 < preds@.len() ==> (#[trigger] preds@[i2]).rel_type == RelType::FS && preds@[i2].lag == 0,
                k <= preds@.len(),
                forall|k2: int| 0 <= k2 < k ==> has_activity(acts, #[trigger] link_ids(preds@)[k2]),
            decreases preds@.len() - k,
        {
            match position_of(&self.project.activities, &preds[k].activity_id) {
                Some(j) => {
                    proof {
                        assert(acts[j as int].id@ == link_ids(preds@)[k as int]);
                    }
                },
                None => {
                    let mut msg = "Unknown predecessor: '".to_string();
                    push_text(&mut msg, preds[k].activity_id.as_str());
                    push_text(&mut msg, "'");
                    self.edit.error = Some(msg);
                    proof {
                        let ids = link_ids(preds@);
                        assert(!has_activity(acts, ids[k as int]));
                        let c = choose|c: int|
                            0 <= c < ids.len() && !has_activity(acts, #[trigger] ids[c]) && forall|k2: int|
                                0 <= k2 < c ==> has_activity(acts, ids[k2]);
                        if c < k {
                            assert(has_activity(acts, ids[c]));
                        } else if c > k {
                            assert(has_activity(acts, ids[k as int]));
                        }
                    }
                    return;
                },
            }
            k += 1;
        }
        proof {
            let ids = link_ids(preds@);
            assert(!(exists|k2: int| 0 <= k2 < ids.len() && !has_activity(acts, #[trigger] ids[k2])));
        }
        let resource = trim(self.edit.resource.as_str()).to_string();
        let act = Activity {
            id: self.edit.id.clone(),
            name,
            duration,
            predecessors: preds,
            resource,
            wbs: String::new(),
            cpm: CpmResult::default(),
        };
        let mut status = if self.edit.is_new {
            "Added activity '".to_string()
        } else {
            "Updated activity '".to_string()
        };
        push_text(&mut status, act.name.as_str());
        push_text(&mut status, "'.");
        self.status = status;
        let ghost a = act;
        if self.edit.is_new {
            self.project.add_activity(act);
        } else {
            self.project.update_activity(act);
        }
        self.edit.open = false;
        self.edit.error = None;
        proof {
            assert(built_from_edit(a, e, duration as int));
            assert(applied_edit(*old(self), *self, a));
        }
    }

    /// Runs the scheduler on the project's activities. On success the activities are
    /// replaced by the scheduled ones and the status line sums up the result; otherwise
    /// the project is marked unscheduled and the error is shown.
    pub fn run_schedule(&mut self)
        ensures
            ({
                let input = old(self).project.activities@;
                if schedulable_input(input) {
                    exists|res: SchedulerResult|
                        #[trigger] schedule_of(input, res) && final(self).project == (Project {
                            activities: res.activities,
                            is_scheduled: true,
                            ..old(self).project
                        }) && final(self).sched_error is None && final(self).status@ == scheduled_message(
                            input.len() as int,
                            res.project_duration as int,
                            res.critical_path@.len() as int,
                        )
                } else {
                    &&& final(self).project == (Project { is_scheduled: false, ..old(self).project })
                    &&& final(self).sched_error matches Some(m) && m@ == failure_text(input)
                    &&& final(self).status@ == "Schedule error: "@ + failure_text(input)
                }
            }),
            final(self).tab == old(self).tab,
            final(self).edit == old(self).edit,
            final(self).settings_open == old(self).settings_open,
            final(self).settings_name == old(self).settings_name,
            final(self).settings_date == old(self).settings_date,
            final(self).confirm_delete == old(self).confirm_delete,
    {
        self.sched_error = None;
        let ghost input = self.project.activities@;
        match run_cpm(self.project.activities.as_slice()) {
            Ok(result) => {
                let n = result.activities.len();
                let mut status = "\u{2713}  Scheduled ".to_string();
                push_text(&mut status, count_text(n).as_str());
                push_text(&mut status, " activities  |  Project duration: ");
                push_text(&mut status, int_text(result.project_duration).as_str());
                push_text(&mut status, " days  |  Critical path: ");
                push_text(&mut status, count_text(result.critical_path.len()).as_str());
                push_text(&mut status, " activities");
                let ghost res = result;
                self.project.activities = result.activities;
                self.project.is_scheduled = true;
                self.status = status;
                proof {
                    assert(schedule_of(input, res));
                }
            },
            Err(e) => {
                self.project.is_scheduled = false;
                let text = e.to_string();
                let mut status = "Schedule error: ".to_string();
                push_text(&mut status, text.as_str());
                proof {
                    lemma_failure_text(input, e);
                }
                self.sched_error = Some(text);
                self.status = status;
            },
        }
    }

    /// Replaces the project with the sample project.
    pub fn load_sample(&mut self)
        ensures
            is_sample_project(final(self).project),
            final(self).sched_error is None,
            final(self).status@ == "Sample loaded. Press \u{25b6} Schedule or F5."@,
            final(self).tab == old(self).tab,
            final(self).edit == old(self).edit,
            final(self).settings_open == old(self).settings_open,
            final(self).settings_name == old(self).settings_name,
            final(self).settings_date == old(self).settings_date,
            final(self).confirm_delete == old(self).confirm_delete,
    {
        self.project = Project::load_sample();
        self.sched_error = None;
        self.status = "Sample loaded. Press \u{25b6} Schedule or F5.".to_string();
    }

    /// Replaces the project with a new, empty one.
    pub fn new_project(&mut self)
        ensures
            final(self).project.activities@.len() == 0,
            final(self).project.settings.name@ == "Untitled Project"@,
            final(self).project.settings.start_date is None,
            final(self).project.settings.description@.len() == 0,
            final(self).project.settings.version == 1,
            !final(self).project.is_dirty,
            !final(self).project.is_scheduled,
            final(self).project.file_path is None,
            final(self).sched_error is None,
            final(self).status@ == "New project."@,
            final(self).tab == old(self).tab,
            final(self).edit == old(self).edit,
            final(self).settings_open == old(self).settings_open,
            final(self).settings_name == old(self).settings_name,
            final(self).settings_date == old(self).settings_date,
            final(self).confirm_delete == old(self).confirm_delete,
    {
        self.project = Project::default();
        self.sched_error = None;
        self.status = "New project.".to_string();
    }

    /// Opens the dialog for a new activity.
    pub fn start_add(&mut self)
        ensures
            final(self).edit.open,
            final(self).edit.is_new,
            final(self).edit.id@.len() == 8,
            forall|i: int| 0 <= i < 8 ==> upper_hex(#[trigger] final(self).edit.id@[i]),
            final(self).edit.name@.len() == 0,
            final(self).edit.duration@ == "1"@,
            final(self).edit.resource@.len() == 0,
            final(self).edit.predecessors@.len() == 0,
            final(self).edit.error is None,
            *final(self) == (CpmApp { edit: final(self).edit, ..*old(self) }),
    {
        self.edit = EditState::new_empty();
    }

    /// Opens the dialog on an existing activity.
    pub fn start_edit(&mut self, act: &Activity)
        ensures
            opened_on(final(self).edit, *act),
            *final(self) == (CpmApp { edit: final(self).edit, ..*old(self) }),
    {
        self.edit = EditState::from_activity(act);
    }

    /// Closes the activity dialog without applying it.
    pub fn cancel_edit(&mut self)
        ensures
            *final(self) == (CpmApp { edit: EditState { open: false, error: None, ..old(self).edit }, ..*old(self) }),
    {
        self.edit.open = false;
        self.edit.error = None;
    }

    /// Asks for confirmation before deleting the activity `id`.
    pub fn request_delete(&mut self, id: String)
        ensures
            *final(self) == (CpmApp { confirm_delete: Some(id), ..*old(self) }),
    {
        self.confirm_delete = Some(id);
    }

    /// Deletes the activity awaiting confirmation, with its links, and says so.
    pub fn delete_confirmed(&mut self)
        ensures
            match old(self).confirm_delete {
                Some(id) => {
                    &&& crate::project::views(final(self).project.activities@) == crate::project::removed(
                        old(self).project.activities@,
                        id@,
                        old(self).project.activities@.len() as int,
                    )
                    &&& final(self).project.settings == old(self).project.settings
                    &&& final(self).project.file_path == old(self).project.file_path
                    &&& final(self).project.is_dirty
                    &&& !final(self).project.is_scheduled
                    &&& final(self).status@ == "Deleted activity '"@ + id@ + "'."@
                    &&& final(self).confirm_delete is None
                    &&& final(self).tab == old(self).tab
                    &&& final(self).edit == old(self).edit
                    &&& final(self).settings_open == old(self).settings_open
                    &&& final(self).settings_name == old(self).settings_name
                    &&& final(self).settings_date == old(self).settings_date
                    &&& final(self).sched_error == old(self).sched_error
                },
                None => *final(self) == *old(self),
            },
    {
        match self.confirm_delete.take() {
            Some(id) => {
                self.project.remove_activity(id.as_str());
                let mut status = "Deleted activity '".to_string();
                push_text(&mut status, id.as_str());
                push_text(&mut status, "'.");
                self.status = status;
            },
            None => {},
        }
    }

    /// Dismisses the delete confirmation.
    pub fn cancel_delete(&mut self)
        ensures
            *final(self) == (CpmApp { confirm_delete: None, ..*old(self) }),
    {
        self.confirm_delete = None;
    }

    /// Opens the settings dialog with the project's name and start date.
    pub fn open_settings(&mut self)
        ensures
            settings_opened(*old(self), *final(self)),
    {
        self.settings_open = true;
        self.settings_name = self.project.settings.name.clone();
        self.settings_date = match self.project.settings.start_date {
            Some(d) => match calendar_date(d.year, d.month, d.day) {
                Some(v) => format_iso_date(v),
                None => String::new(),
            },
            None => String::new(),
        };
        proof {
            assert(self.settings_date@ == date_field(old(self).project.settings.start_date));
        }
    }

    /// Applies the settings dialog: the name, and the start date when the text gives one.
    pub fn apply_settings(&mut self)
        ensures
            settings_applied(*old(self), *final(self)),
    {
        self.project.settings.name = self.settings_name.clone();
        match parse_iso_date(self.settings_date.as_str()) {
            Some(d) => {
                self.project.settings.start_date = Some(d);
            },
            None => {},
        }
        self.project.is_dirty = true;
        self.settings_open = false;
    }

    /// Closes the settings dialog without applying it.
    pub fn cancel_settings(&mut self)
        ensures
            *final(self) == (CpmApp { settings_open: false, ..*old(self) }),
    {
        self.settings_open = false;
    }

    /// Shows another tab.
    pub fn set_tab(&mut self, tab: Tab)
        ensures
            *final(self) == (CpmApp { tab, ..*old(self) }),
    {
        self.tab = tab;
    }

    /// The project duration shown in the summary: the largest earliest finish, or 0 when
    /// there are no activities.
    pub fn duration_days(&self) -> (d: i128)
        ensures
            self.project.activities@.len() == 0 ==> d == 0,
            forall|k: int| 0 <= k < self.project.activities@.len() ==> d >= #[trigger] self.project.activities@[k].cpm.ef,
            self.project.activities@.len() > 0 ==> exists|k: int|
                0 <= k < self.project.activities@.len() && d == #[trigger] self.project.activities@[k].cpm.ef,
    {
        let acts = &self.project.activities;
        if acts.len() == 0 {
            return 0;
        }
        let mut d = acts[0].cpm.ef;
        let ghost mut w: int = 0;
        let mut k: usize = 1;
        while k < acts.len()
            invariant
                1 <= k <= acts@.len(),
                forall|k1: int| 0 <= k1 < k ==> d >= #[trigger] acts@[k1].cpm.ef,
                0 <= w < k,
                d == acts@[w].cpm.ef,
            decreases acts@.len() - k,
        {
            if acts[k].cpm.ef > d {
                d = acts[k].cpm.ef;
                proof {
                    w = k as int;
                }
            }
            k += 1;
        }
        d
    }

    /// The number of critical activities.
    pub fn critical_count(&self) -> (c: usize)
        ensures
            c == count_critical(self.project.activities@, self.project.activities@.len() as int),
            c == critical_ids(self.project.activities@, self.project.activities@.len() as int).len(),
    {
        let acts = &self.project.activities;
        let mut c: usize = 0;
        let mut k: usize = 0;
        while k < acts.len()
            invariant
                k <= acts@.len(),
                c == count_critical(acts@, k as int),
                c == critical_ids(acts@, k as int).len(),
                c <= k,
            decreases acts@.len() - k,
        {
            if acts[k].cpm.critical {
                c += 1;
            }
            k += 1;
        }
        c
    }
}

/// The number of critical activities among the first `k`.
pub open spec fn count_critical(acts: Seq<Activity>, k: int) -> int
    decreases k,
{
    if k <= 0 {
        0
    } else {
        count_critical(acts, k - 1) + if acts[k - 1].cpm.critical { 1int } else { 0int }
    }
}

} // verus!
