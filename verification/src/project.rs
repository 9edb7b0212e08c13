//! Project state: settings, the activity list and the flags that track unsaved and
//! unscheduled changes.
use vstd::prelude::*;
use std::path::PathBuf;
use crate::activity::{Activity, ActivityView, CpmResult, Predecessor, RelType};
use crate::calendar::{calendar_date, valid_date, CalendarDate};
use crate::text::push_text;

verus! {

#[verifier::external_type_specification]
#[verifier::external_body]
pub struct ExPathBuf(PathBuf);

/// The last component of a path, as text, when it has one that is valid UTF-8.
///
/// Trusted: `Path::file_name` followed by `OsStr::to_str`. What the last component is
/// depends on the platform's path syntax, so only what holds on every platform is stated:
/// a name it gives is not empty and holds no '/', which separates components everywhere.
#[verifier::external_body]
pub(crate) fn path_file_name(path: &PathBuf) -> (r: Option<String>)
    ensures
        r matches Some(s) ==> s@.len() > 0 && !s@.contains('/'),
{
    match path.file_name() {
        Some(n) => match n.to_str() {
            Some(s) => Some(s.to_string()),
            None => None,
        },
        None => None,
    }
}

/// Project metadata.
#[derive(Debug, Clone)]
pub struct ProjectSettings {
    pub name: String,
    pub start_date: Option<CalendarDate>,
    pub description: String,
    pub version: u32,
}

impl Default for ProjectSettings {
    fn default() -> (r: Self)
        ensures
            r.name@ == "Untitled Project"@,
            r.start_date is None,
            r.description@.len() == 0,
            r.version == 1,
    {
        ProjectSettings {
            name: "Untitled Project".to_string(),
            start_date: None,
            description: String::new(),
            version: 1,
        }
    }
}

/// A project: its settings, its activities, and whether it has unsaved changes and
/// up-to-date CPM results.
#[derive(Debug, Clone)]
pub struct Project {
    pub settings: ProjectSettings,
    pub activities: Vec<Activity>,
    pub is_dirty: bool,
    pub file_path: Option<PathBuf>,
    pub is_scheduled: bool,
}

impl Default for Project {
    fn default() -> (r: Self)
        ensures
            r.settings.name@ == "Untitled Project"@,
            r.settings.start_date is None,
            r.settings.description@.len() == 0,
            r.settings.version == 1,
            r.activities@.len() == 0,
            !r.is_dirty,
            r.file_path is None,
            !r.is_scheduled,
    {
        Project {
            settings: ProjectSettings::default(),
            activities: Vec::new(),
            is_dirty: false,
            file_path: None,
            is_scheduled: false,
        }
    }
}

/// The views of a sequence of activities.
pub open spec fn views(s: Seq<Activity>) -> Seq<ActivityView> {
    s.map_values(|a: Activity| a@)
}

/// The links of `preds` that do not name `id`, in order.
pub open spec fn links_without(preds: Seq<Predecessor>, id: Seq<char>) -> Seq<Predecessor>
    decreases preds.len(),
{
    if preds.len() == 0 {
        Seq::empty()
    } else if preds.last().activity_id@ == id {
        links_without(preds.drop_last(), id)
    } else {
        links_without(preds.drop_last(), id).push(preds.last())
    }
}

/// The first `k` activities without those whose id is `id`, and without any link to `id`.
pub open spec fn removed(acts: Seq<Activity>, id: Seq<char>, k: int) -> Seq<ActivityView>
    decreases k,
{
    if k <= 0 {
        Seq::empty()
    } else if acts[k - 1].id@ == id {
        removed(acts, id, k - 1)
    } else {
        removed(acts, id, k - 1).push(
            ActivityView { predecessors: links_without(acts[k - 1].predecessors@, id), ..acts[k - 1]@ },
        )
    }
}

/// The position of the first activity whose id is `id`, if any.
pub open spec fn first_with_id(acts: Seq<Activity>, id: Seq<char>) -> Option<int> {
    if exists|i: int| 0 <= i < acts.len() && #[trigger] acts[i].id@ == id {
        Some(
            choose|i: int|
                0 <= i < acts.len() && #[trigger] acts[i].id@ == id && forall|i2: int| 0 <= i2 < i ==> acts[i2].id@ != id,
        )
    } else {
        None
    }
}

/// The position of the first activity whose id is `id`.
pub fn position_of(acts: &Vec<Activity>, id: &String) -> (r: Option<usize>)
    ensures
        match r {
            Some(i) => i < acts@.len() && acts@[i as int].id@ == id@ && forall|i2: int| 0 <= i2 < i ==> acts@[i2].id@ != id@,
            None => forall|i: int| 0 <= i < acts@.len() ==> acts@[i].id@ != id@,
        },
        r matches Some(i) ==> first_with_id(acts@, id@) == Some(i as int),
        r is None ==> first_with_id(acts@, id@) is None,
{
    let mut i: usize = 0;
    while i < acts.len()
        invariant
            i <= acts@.len(),
            forall|i2: int| 0 <= i2 < i ==> acts@[i2].id@ != id@,
        decreases acts@.len() - i,
    {
        if acts[i].id == *id {
            proof {
                let w = choose|w: int|
                    0 <= w < acts@.len() && #[trigger] acts@[w].id@ == id@ && forall|i2: int| 0 <= i2 < w ==> acts@[i2].id@ != id@;
                assert(acts@[i as int].id@ == id@);
                if w < i {
                    assert(acts@[w].id@ != id@);
                } else if w > i {
                    assert(acts@[i as int].id@ != id@);
                }
            }
            return Some(i);
        }
        i += 1;
    }
    None
}

/// A copy of `a` without its links to `id`.
fn without_links_to(a: &Activity, id: &str) -> (r: Activity)
    ensures
        r@ == (ActivityView { predecessors: links_without(a.predecessors@, id@), ..a@ }),
{
    let target = id.to_string();
    let mut preds: Vec<Predecessor> = Vec::new();
    let mut i: usize = 0;
    while i < a.predecessors.len()
        invariant
            i <= a.predecessors@.len(),
            target@ == id@,
            preds@ == links_without(a.predecessors@.subrange(0, i as int), id@),
        decreases a.predecessors@.len() - i,
    {
        let p = &a.predecessors[i];
        proof {
            let pre = a.predecessors@.subrange(0, i as int);
            let post = a.predecessors@.subrange(0, i + 1);
            assert(post.drop_last() =~= pre);
            assert(post.last() == a.predecessors@[i as int]);
        }
        if p.activity_id != target {
            preds.push(p.duplicate());
        }
        i += 1;
    }
    proof {
        assert(a.predecessors@.subrange(0, a.predecessors@.len() as int) =~= a.predecessors@);
    }
    Activity {
        id: a.id.clone(),
        name: a.name.clone(),
        duration: a.duration,
        predecessors: preds,
        resource: a.resource.clone(),
        wbs: a.wbs.clone(),
        cpm: a.cpm,
    }
}

impl Project {
    /// Appends an activity; the project now has unsaved, unscheduled changes.
    pub fn add_activity(&mut self, act: Activity)
        ensures
            final(self).activities@ == old(self).activities@.push(act),
            final(self).settings == old(self).settings,
            final(self).file_path == old(self).file_path,
            final(self).is_dirty,
            !final(self).is_scheduled,
    {
        self.activities.push(act);
        self.is_dirty = true;
        self.is_scheduled = false;
    }

    /// Removes every activity whose id is `id`, and every link to `id` from the others.
    pub fn remove_activity(&mut self, id: &str)
        ensures
            views(final(self).activities@) == removed(old(self).activities@, id@, old(self).activities@.len() as int),
            final(self).settings == old(self).settings,
            final(self).file_path == old(self).file_path,
            final(self).is_dirty,
            !final(self).is_scheduled,
    {
        let target = id.to_string();
        let mut kept: Vec<Activity> = Vec::new();
        let mut i: usize = 0;
        while i < self.activities.len()
            invariant
                target@ == id@,
                i <= self.activities@.len(),
                views(kept@) == removed(self.activities@, id@, i as int),
            decreases self.activities@.len() - i,
        {
            let a = &self.activities[i];
            if a.id != target {
                let b = without_links_to(a, id);
                let ghost before = kept@;
                kept.push(b);
                proof {
                    assert(views(kept@) =~= views(before).push(b@));
                }
            }
            i += 1;
        }
        self.activities = kept;
        self.is_dirty = true;
        self.is_scheduled = false;
    }

    /// Replaces the first activity that has the id of `updated`; the project now has
    /// unsaved, unscheduled changes. When no activity has that id, nothing changes.
    pub fn update_activity(&mut self, updated: Activity)
        ensures
            match first_with_id(old(self).activities@, updated.id@) {
                Some(i) => {
                    &&& final(self).activities@ == old(self).activities@.update(i, updated)
                    &&& final(self).is_dirty
                    &&& !final(self).is_scheduled
                },
                None => {
                    &&& final(self).activities@ == old(self).activities@
                    &&& final(self).is_dirty == old(self).is_dirty
                    &&& final(self).is_scheduled == old(self).is_scheduled
                },
            },
            final(self).settings == old(self).settings,
            final(self).file_path == old(self).file_path,
    {
        match position_of(&self.activities, &updated.id) {
            Some(i) => {
                self.activities.set(i, updated);
                self.is_dirty = true;
                self.is_scheduled = false;
            },
            None => {},
        }
    }
}

impl Project {
    /// Records that the project was read from the file at `path`: it is stored there and has
    /// no unsaved changes.
    pub fn mark_opened(&mut self, path: PathBuf)
        ensures
            final(self).file_path == Some(path),
            !final(self).is_dirty,
            final(self).settings == old(self).settings,
            final(self).activities == old(self).activities,
            final(self).is_scheduled == old(self).is_scheduled,
    {
        self.file_path = Some(path);
        self.is_dirty = false;
    }
}

/// The window title: the application, the project name, the file name when there is
/// one, and a dot when there are unsaved changes.
pub open spec fn title_text(name: Seq<char>, file: Option<Seq<char>>, dirty: bool) -> Seq<char> {
    "CPM Scheduler \u{2014} "@ + name + match file {
        Some(f) => " \u{2014} "@ + f,
        None => Seq::<char>::empty(),
    } + if dirty {
        " \u{2022}"@
    } else {
        Seq::<char>::empty()
    }
}

/// The window title for a project name, an optional file name and the unsaved flag.
pub fn title_for(name: &String, file: &Option<String>, dirty: bool) -> (r: String)
    ensures
        r@ == title_text(name@, match file {
            Some(f) => Some(f@),
            None => None,
        }, dirty),
{
    let mut r = "CPM Scheduler \u{2014} ".to_string();
    push_text(&mut r, name.as_str());
    match file {
        Some(f) => {
            push_text(&mut r, " \u{2014} ");
            push_text(&mut r, f.as_str());
        },
        None => {},
    }
    if dirty {
        push_text(&mut r, " \u{2022}");
    }
    proof {
        let fpart = match file {
            Some(f) => " \u{2014} "@ + f@,
            None => Seq::<char>::empty(),
        };
        let dpart = if dirty { " \u{2022}"@ } else { Seq::<char>::empty() };
        assert(r@ =~= "CPM Scheduler \u{2014} "@ + name@ + fpart + dpart);
    }
    r
}

/// Link `p` is a Finish-to-Start link without lag to `id`.
pub open spec fn plain_link(p: Predecessor, id: Seq<char>) -> bool {
    p.activity_id@ == id && p.rel_type == RelType::FS && p.lag == 0
}

/// Activity `a` has the given id, name, duration, plain links and resource, no WBS code and
/// a blank result.
pub open spec fn sample_entry(
    a: Activity,
    id: Seq<char>,
    name: Seq<char>,
    duration: int,
    preds: Seq<Seq<char>>,
    resource: Seq<char>,
) -> bool {
    &&& a.id@ == id
    &&& a.name@ == name
    &&& a.duration == duration
    &&& a.predecessors@.len() == preds.len()
    &&& forall|i: int| 0 <= i < preds.len() ==> #[trigger] plain_link(a.predecessors@[i], preds[i])
    &&& a.resource@ == resource
    &&& a.wbs@.len() == 0
    &&& a.cpm == CpmResult::blank()
}

/// `p` is the sample construction project: five activities A to E, starting 2025-01-06.
pub open spec fn is_sample_project(p: Project) -> bool {
    &&& p.settings.name@ == "Sample Construction Project"@
    &&& p.settings.start_date == Some(CalendarDate { year: 2025, month: 1, day: 6 })
    &&& p.settings.description@ == "Demo project for CPM scheduler"@
    &&& p.settings.version == 1
    &&& p.activities@.len() == 5
    &&& sample_entry(p.activities@[0], "A"@, "Start"@, 2, seq![], seq![])
    &&& sample_entry(p.activities@[1], "B"@, "Foundation"@, 4, seq!["A"@], seq![])
    &&& sample_entry(p.activities@[2], "C"@, "Structure"@, 6, seq!["B"@], seq![])
    &&& sample_entry(p.activities@[3], "D"@, "Electrical"@, 3, seq!["B"@], "Electrical Team"@)
    &&& sample_entry(p.activities@[4], "E"@, "Finish"@, 2, seq!["C"@, "D"@], seq![])
    &&& !p.is_dirty
    &&& p.file_path is None
    &&& !p.is_scheduled
}

impl Project {
    /// The window title for this project.
    pub fn title(&self) -> (r: String)
        ensures
            self.file_path is None ==> r@ == title_text(self.settings.name@, None, self.is_dirty),
            exists|file: Option<Seq<char>>|
                r@ == title_text(self.settings.name@, file, self.is_dirty) && (file matches Some(f) ==> f.len() > 0
                    && !f.contains('/')),
    {
        let file = match &self.file_path {
            Some(p) => path_file_name(p),
            None => None,
        };
        let r = title_for(&self.settings.name, &file, self.is_dirty);
        proof {
            let f = match file {
                Some(f) => Some(f@),
                None => None,
            };
            assert(r@ == title_text(self.settings.name@, f, self.is_dirty));
        }
        r
    }

    /// The sample construction project: five activities A to E, starting 2025-01-06.
    pub fn load_sample() -> (r: Project)
        ensures
            is_sample_project(r),
    {
        let mut activities: Vec<Activity> = Vec::new();
        activities.push(Activity::new("A", "Start", 2));
        activities.push(Activity::new("B", "Foundation", 4).with_predecessor("A"));
        activities.push(Activity::new("C", "Structure", 6).with_predecessor("B"));
        activities.push(Activity::new("D", "Electrical", 3).with_predecessor("B").with_resource("Electrical Team"));
        activities.push(Activity::new("E", "Finish", 2).with_predecessor("C").with_predecessor("D"));
        let start = calendar_date(2025, 1, 6);
        proof {
            assert(valid_date(2025, 1, 6));
        }
        let r = Project {
            settings: ProjectSettings {
                name: "Sample Construction Project".to_string(),
                start_date: start,
                description: "Demo project for CPM scheduler".to_string(),
                version: 1,
            },
            activities,
            is_dirty: false,
            file_path: None,
            is_scheduled: false,
        };
        proof {
            assert(r.activities@[0].resource@ =~= seq![]);
            assert(r.activities@[1].resource@ =~= seq![]);
            assert(r.activities@[2].resource@ =~= seq![]);
            assert(r.activities@[4].resource@ =~= seq![]);
            assert(r.activities@[4].predecessors@[0] == r.activities@[4].predecessors@.drop_last()[0]);
            assert(plain_link(r.activities@[4].predecessors@[0], "C"@));
            assert(plain_link(r.activities@[4].predecessors@[1], "D"@));
        }
        r
    }
}

} // verus!
