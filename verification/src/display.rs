//! What the schedule views show: how an activity's float is classed, the day range of the
//! Gantt chart, the columns of the network diagram and which of its links are critical.
use vstd::prelude::*;
use crate::activity::{Activity, CpmResult};
use crate::project::{first_with_id, position_of, Project};

verus! {

/// How the schedule table shows an activity's total float.
#[derive(Debug, Clone, Copy, PartialEq, Eq, Structural)]
pub enum FloatClass {
    /// The project is not scheduled: there is no float to show.
    Unscheduled,
    /// On the critical path (no float).
    Critical,
    /// Less than five days of float.
    NearCritical,
    /// Five days of float or more.
    HasFloat,
}

/// The class of an activity's float.
pub open spec fn float_class_of(scheduled: bool, c: CpmResult) -> FloatClass {
    if !scheduled {
        FloatClass::Unscheduled
    } else if c.critical {
        FloatClass::Critical
    } else if c.tf < 5 {
        FloatClass::NearCritical
    } else {
        FloatClass::HasFloat
    }
}

/// The class of an activity's float: critical, near-critical (under five days) or with float.
pub fn float_class(scheduled: bool, c: &CpmResult) -> (r: FloatClass)
    ensures
        r == float_class_of(scheduled, *c),
        !scheduled ==> r == FloatClass::Unscheduled,
        scheduled && c.critical ==> r == FloatClass::Critical,
        scheduled && !c.critical && c.tf < 5 ==> r == FloatClass::NearCritical,
        scheduled && !c.critical && c.tf >= 5 ==> r == FloatClass::HasFloat,
{
    if !scheduled {
        FloatClass::Unscheduled
    } else if c.critical {
        FloatClass::Critical
    } else if c.tf < 5 {
        FloatClass::NearCritical
    } else {
        FloatClass::HasFloat
    }
}

/// The last day that the Gantt chart shows for the first `k` activities: the largest
/// earliest finish, and at least day 1.
pub open spec fn chart_end(acts: Seq<Activity>, k: int) -> int
    decreases k,
{
    if k <= 0 {
        1
    } else {
        let e = chart_end(acts, k - 1);
        if acts[k - 1].cpm.ef > e {
            acts[k - 1].cpm.ef as int
        } else {
            e
        }
    }
}

/// The last day that the Gantt chart shows.
pub fn chart_days(acts: &Vec<Activity>) -> (r: i128)
    ensures
        r == chart_end(acts@, acts@.len() as int),
        r >= 1,
        forall|j: int| 0 <= j < acts@.len() ==> r >= #[trigger] acts@[j].cpm.ef,
        r == 1 || exists|j: int| 0 <= j < acts@.len() && r == #[trigger] acts@[j].cpm.ef,
{
    let mut r: i128 = 1;
    let mut k: usize = 0;
    while k < acts.len()
        invariant
            k <= acts@.len(),
            r == chart_end(acts@, k as int),
            r >= 1,
            forall|j: int| 0 <= j < k ==> r >= #[trigger] acts@[j].cpm.ef,
            r == 1 || exists|j: int| 0 <= j < k && r == #[trigger] acts@[j].cpm.ef,
        decreases acts@.len() - k,
    {
        if acts[k].cpm.ef > r {
            r = acts[k].cpm.ef;
        }
        k += 1;
    }
    r
}

/// The spacing, in days, of the Gantt chart's grid for a chart of `days` days: a twelfth
/// of the days, rounded up.
pub fn chart_tick(days: i128) -> (r: i128)
    requires
        days >= 1,
    ensures
        r >= 1,
        12 * r >= days,
        12 * (r - 1) < days,
{
    if days % 12 == 0 {
        days / 12
    } else {
        days / 12 + 1
    }
}

/// Whether `e` lies above `prev` (everything does when there is no `prev`).
pub open spec fn above(e: i128, prev: Option<i128>) -> bool {
    match prev {
        Some(p) => e > p,
        None => true,
    }
}

/// The number of the first `k` activities that start above `prev`.
pub open spec fn count_above(acts: Seq<Activity>, prev: Option<i128>, k: int) -> nat
    decreases k,
{
    if k <= 0 {
        0
    } else {
        count_above(acts, prev, k - 1) + if above(acts[k - 1].cpm.es, prev) { 1nat } else { 0nat }
    }
}

/// Moving `prev` up to a start that some activity has lowers the count.
proof fn lemma_count_above_drops(acts: Seq<Activity>, prev: Option<i128>, b: i128, j: int, k: int)
    requires
        above(b, prev),
        0 <= j < k <= acts.len(),
        acts[j].cpm.es == b,
    ensures
        count_above(acts, Some(b), k) < count_above(acts, prev, k),
    decreases k,
{
    lemma_count_above_le(acts, prev, b, k - 1);
    if j < k - 1 {
        lemma_count_above_drops(acts, prev, b, j, k - 1);
    }
}

proof fn lemma_count_above_le(acts: Seq<Activity>, prev: Option<i128>, b: i128, k: int)
    requires
        above(b, prev),
        k <= acts.len(),
    ensures
        count_above(acts, Some(b), k) <= count_above(acts, prev, k),
    decreases k,
{
    if k > 0 {
        lemma_count_above_le(acts, prev, b, k - 1);
    }
}

/// The positions, among the first `k` activities, of those whose earliest start is `s`.
pub open spec fn starting_at(acts: Seq<Activity>, s: i128, k: int) -> Seq<usize>
    decreases k,
{
    if k <= 0 {
        Seq::empty()
    } else if acts[k - 1].cpm.es == s {
        starting_at(acts, s, k - 1).push((k - 1) as usize)
    } else {
        starting_at(acts, s, k - 1)
    }
}

proof fn lemma_starting_at_nonempty(acts: Seq<Activity>, s: i128, j: int, k: int)
    requires
        0 <= j < k <= acts.len(),
        acts[j].cpm.es == s,
    ensures
        starting_at(acts, s, k).len() > 0,
    decreases k,
{
    if j < k - 1 {
        lemma_starting_at_nonempty(acts, s, j, k - 1);
    }
}

/// The smallest earliest start above `prev`, if any activity has one.
fn next_start(acts: &Vec<Activity>, prev: Option<i128>) -> (r: Option<i128>)
    ensures
        r is None <==> forall|j: int| 0 <= j < acts@.len() ==> !above(#[trigger] acts@[j].cpm.es, prev),
        r matches Some(b) ==> {
            &&& above(b, prev)
            &&& exists|j: int| 0 <= j < acts@.len() && #[trigger] acts@[j].cpm.es == b
            &&& forall|j: int| 0 <= j < acts@.len() && above(#[trigger] acts@[j].cpm.es, prev) ==> b <= acts@[j].cpm.es
        },
{
    let mut best: Option<i128> = None;
    let mut k: usize = 0;
    while k < acts.len()
        invariant
            k <= acts@.len(),
            best is None ==> forall|j: int| 0 <= j < k ==> !above(#[trigger] acts@[j].cpm.es, prev),
            best matches Some(b) ==> {
                &&& above(b, prev)
                &&& exists|j: int| 0 <= j < k && #[trigger] acts@[j].cpm.es == b
                &&& forall|j: int| 0 <= j < k && above(#[trigger] acts@[j].cpm.es, prev) ==> b <= acts@[j].cpm.es
            },
        decreases acts@.len() - k,
    {
        let e = acts[k].cpm.es;
        let is_above = match prev {
            Some(p) => e > p,
            None => true,
        };
        if is_above {
            match best {
                Some(b) => {
                    if e < b {
                        best = Some(e);
                    }
                },
                None => {
                    best = Some(e);
                },
            }
        }
        proof {
            assert(acts@[k as int].cpm.es == e);
        }
        k += 1;
    }
    best
}

/// The positions of the activities whose earliest start is `s`, in order.
fn members_at(acts: &Vec<Activity>, s: i128) -> (r: Vec<usize>)
    ensures
        r@ == starting_at(acts@, s, acts@.len() as int),
{
    let mut r: Vec<usize> = Vec::new();
    let mut k: usize = 0;
    while k < acts.len()
        invariant
            k <= acts@.len(),
            r@ == starting_at(acts@, s, k as int),
        decreases acts@.len() - k,
    {
        if acts[k].cpm.es == s {
            r.push(k);
        }
        k += 1;
    }
    r
}

/// A column of the network diagram: the activities (by position) that start on day `start`.
pub struct Layer {
    pub start: i128,
    pub members: Vec<usize>,
}

/// `layers` are the columns of the network diagram of `acts`: one for each earliest start,
/// in increasing order of start, each holding in order the activities that start then.
pub open spec fn layered(acts: Seq<Activity>, layers: Seq<Layer>) -> bool {
    &&& forall|i: int, j: int| 0 <= i < j < layers.len() ==> #[trigger] layers[i].start < #[trigger] layers[j].start
    &&& forall|i: int|
        0 <= i < layers.len() ==> (#[trigger] layers[i]).members@ == starting_at(acts, layers[i].start, acts.len() as int)
            && layers[i].members@.len() > 0
    &&& forall|k: int| 0 <= k < acts.len() ==> has_layer(layers, #[trigger] acts[k].cpm.es)
}

/// Some layer starts on day `s`.
pub open spec fn has_layer(layers: Seq<Layer>, s: i128) -> bool {
    exists|i: int| 0 <= i < layers.len() && #[trigger] layers[i].start == s
}

/// The columns of the network diagram: the activities grouped by earliest start, the
/// groups in increasing order of start.
pub fn network_layers(acts: &Vec<Activity>) -> (r: Vec<Layer>)
    ensures
        layered(acts@, r@),
{
    let n = acts.len();
    let mut layers: Vec<Layer> = Vec::new();
    let mut prev: Option<i128> = None;
    let mut next = next_start(acts, prev);
    while next.is_some()
        invariant
            n == acts@.len(),
            next is None <==> forall|j: int| 0 <= j < n ==> !above(#[trigger] acts@[j].cpm.es, prev),
            next matches Some(b) ==> {
                &&& above(b, prev)
                &&& exists|j: int| 0 <= j < n && #[trigger] acts@[j].cpm.es == b
                &&& forall|j: int| 0 <= j < n && above(#[trigger] acts@[j].cpm.es, prev) ==> b <= acts@[j].cpm.es
            },
            prev is None <==> layers@.len() == 0,
            prev matches Some(p) ==> layers@.last().start == p,
            forall|i: int, j: int| 0 <= i < j < layers@.len() ==> #[trigger] layers@[i].start < #[trigger] layers@[j].start,
            forall|i: int|
                0 <= i < layers@.len() ==> (#[trigger] layers@[i]).members@ == starting_at(acts@, layers@[i].start, n as int)
                    && layers@[i].members@.len() > 0,
            forall|k: int| 0 <= k < n && !above(#[trigger] acts@[k].cpm.es, prev) ==> has_layer(layers@, acts@[k].cpm.es),
        decreases count_above(acts@, prev, n as int),
    {
        let b = match next {
            Some(b) => b,
            None => 0,
        };
        let ghost j0 = choose|j: int| 0 <= j < n && #[trigger] acts@[j].cpm.es == b;
        let members = members_at(acts, b);
        proof {
            lemma_starting_at_nonempty(acts@, b, j0, n as int);
            lemma_count_above_drops(acts@, prev, b, j0, n as int);
        }
        let ghost old_layers = layers@;
        let ghost old_prev = prev;
        layers.push(Layer { start: b, members });
        prev = Some(b);
        proof {
            assert forall|i: int, j: int| 0 <= i < j < layers@.len() implies #[trigger] layers@[i].start
                < #[trigger] layers@[j].start by {
                if j < old_layers.len() {
                    assert(layers@[i] == old_layers[i]);
                    assert(layers@[j] == old_layers[j]);
                } else {
                    assert(layers@[i] == old_layers[i]);
                    if i < old_layers.len() - 1 {
                        assert(old_layers[i].start < old_layers[old_layers.len() - 1].start);
                    }
                }
            }
            assert forall|i: int| 0 <= i < layers@.len() implies (#[trigger] layers@[i]).members@ == starting_at(
                acts@,
                layers@[i].start,
                n as int,
            ) && layers@[i].members@.len() > 0 by {
                if i < old_layers.len() {
                    assert(layers@[i] == old_layers[i]);
                }
            }
            assert forall|k: int| 0 <= k < n && !above(#[trigger] acts@[k].cpm.es, prev) implies has_layer(
                layers@,
                acts@[k].cpm.es,
            ) by {
                if above(acts@[k].cpm.es, old_prev) {
                    assert(b <= acts@[k].cpm.es);
                    assert(layers@[old_layers.len() as int].start == acts@[k].cpm.es);
                } else {
                    assert(has_layer(old_layers, acts@[k].cpm.es));
                    let i = choose|i: int| 0 <= i < old_layers.len() && #[trigger] old_layers[i].start == acts@[k].cpm.es;
                    assert(layers@[i] == old_layers[i]);
                }
            }
        }
        next = next_start(acts, prev);
    }
    proof {
        assert forall|k: int| 0 <= k < acts@.len() implies has_layer(layers@, #[trigger] acts@[k].cpm.es) by {
            assert(!above(acts@[k].cpm.es, prev));
        }
    }
    layers
}

/// Link `i` of activity `k` joins two critical activities: `k` itself and the first
/// activity with the id that the link names.
pub open spec fn critical_link_of(acts: Seq<Activity>, k: int, i: int) -> bool {
    &&& acts[k].cpm.critical
    &&& match first_with_id(acts, acts[k].predecessors@[i].activity_id@) {
        Some(j) => acts[j].cpm.critical,
        None => false,
    }
}

/// Whether link `i` of activity `k` is drawn as part of the critical path.
pub fn critical_link(acts: &Vec<Activity>, k: usize, i: usize) -> (r: bool)
    requires
        k < acts@.len(),
        i < acts@[k as int].predecessors@.len(),
    ensures
        r == critical_link_of(acts@, k as int, i as int),
        r <==> (acts@[k as int].cpm.critical && exists|j: int|
            0 <= j < acts@.len() && #[trigger] acts@[j].id@ == acts@[k as int].predecessors@[i as int].activity_id@
                && (forall|j2: int| 0 <= j2 < j ==> acts@[j2].id@ != acts@[k as int].predecessors@[i as int].activity_id@)
                && acts@[j].cpm.critical),
{
    if !acts[k].cpm.critical {
        return false;
    }
    match position_of(acts, &acts[k].predecessors[i].activity_id) {
        Some(j) => acts[j].cpm.critical,
        None => false,
    }
}

/// The badge beside the project name: whether the results are up to date.
pub open spec fn badge_text(p: Project) -> Option<Seq<char>> {
    if p.is_scheduled {
        Some("\u{25cf} Scheduled"@)
    } else if p.activities@.len() > 0 {
        Some("\u{25cb} Not scheduled"@)
    } else {
        None
    }
}

/// The badge beside the project name, if any.
pub fn schedule_badge(p: &Project) -> (r: Option<String>)
    ensures
        match r {
            Some(s) => badge_text(*p) == Some(s@),
            None => badge_text(*p) is None,
        },
{
    if p.is_scheduled {
        Some("\u{25cf} Scheduled".to_string())
    } else if p.activities.len() > 0 {
        Some("\u{25cb} Not scheduled".to_string())
    } else {
        None
    }
}

} // verus!
