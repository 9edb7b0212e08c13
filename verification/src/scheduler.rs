//! The CPM engine: validation, topological ordering, forward and backward passes,
//! total and free float, and the critical path.
use vstd::prelude::*;
use crate::activity::{Activity, CpmResult};
use crate::network::{
    critical_ids, crit_col, duration_rule, ef_col, es_col, ff_col, finish_rule, free_float_rule, has_id,
    ids_distinct, is_cpm_schedule, late_finish_rule, late_start_rule, lf_col, ls_col, network, start_rule, task_of, texts, tf_col, total_float_rule, Task,
};
use crate::text::{join, joined, push_text};
use crate::passes::{
    backward_pass, float_pass, forward_pass, lemma_names_resolved, max_activities, max_finish, ordered_links, step,
};

verus! {

/// Why a list of activities cannot be scheduled.
#[derive(Debug, Clone)]
pub enum SchedulerError {
    /// The ids of the activities that depend on a cycle (or share an id), in input order.
    CycleDetected(Vec<String>),
    /// `activity` names `pred` as a predecessor, and no activity has that id.
    UnknownPredecessor { activity: String, pred: String },
    /// There is nothing to schedule.
    EmptyProject,
}

impl SchedulerError {
    /// The message that describes the error.
    pub open spec fn text(self) -> Seq<char> {
        match self {
            SchedulerError::CycleDetected(ids) => "Cycle detected involving: "@ + joined(texts(ids@), ", "@),
            SchedulerError::UnknownPredecessor { activity, pred } => "Activity '"@ + activity@
                + "' references unknown predecessor '"@ + pred@ + "'"@,
            SchedulerError::EmptyProject => "No activities to schedule"@,
        }
    }

    /// The message that describes the error, as text.
    pub fn to_string(&self) -> (s: String)
        ensures
            s@ == self.text(),
    {
        match self {
            SchedulerError::CycleDetected(ids) => {
                let mut s = "Cycle detected involving: ".to_string();
                let list = join(ids, ", ");
                push_text(&mut s, list.as_str());
                s
            },
            SchedulerError::UnknownPredecessor { activity, pred } => {
                let mut s = "Activity '".to_string();
                push_text(&mut s, activity.as_str());
                push_text(&mut s, "' references unknown predecessor '");
                push_text(&mut s, pred.as_str());
                push_text(&mut s, "'");
                s
            },
            SchedulerError::EmptyProject => "No activities to schedule".to_string(),
        }
    }
}

/// What a successful scheduling run produces.
pub struct SchedulerResult {
    /// The activities in an order where each follows its predecessors, with results filled in.
    pub activities: Vec<Activity>,
    /// The largest earliest finish.
    pub project_duration: i128,
    /// The ids of the critical activities, in the order of `activities`.
    pub critical_path: Vec<String>,
    pub warnings: Vec<String>,
}

/// The warning given when no activity is critical.
pub open spec fn no_critical_warning() -> Seq<char> {
    "No critical path found \u{2014} all activities have float."@
}

/// Every id of the network can be scheduled.
pub open spec fn all_schedulable(net: Seq<Task>) -> bool {
    forall|j: int| 0 <= j < net.len() ==> schedulable(net, #[trigger] net[j].id)
}

/// Activity `k` of `out` is one of the activities of `input` (with a result filled in).
pub open spec fn drawn_from(out: Seq<Activity>, input: Seq<Activity>, k: int) -> bool {
    exists|j: int| 0 <= j < input.len() && #[trigger] out[k].same_task(input[j])
}

/// Activity `j` of `input` is among the activities of `out`.
pub open spec fn kept_in(out: Seq<Activity>, input: Seq<Activity>, j: int) -> bool {
    exists|k: int| 0 <= k < out.len() && #[trigger] out[k].same_task(input[j])
}

/// `res` is the CPM schedule of `input`: the same activities in precedence order, each
/// with its CPM result, the project duration, the critical path and the warnings.
pub open spec fn schedule_of(input: Seq<Activity>, res: SchedulerResult) -> bool {
    let out = res.activities@;
    &&& out.len() == input.len()
    &&& forall|k: int| 0 <= k < out.len() ==> #[trigger] drawn_from(out, input, k)
    &&& forall|j: int| 0 <= j < input.len() ==> #[trigger] kept_in(out, input, j)
    &&& ids_distinct(network(out))
    &&& is_cpm_schedule(out, res.project_duration as int)
    &&& texts(res.critical_path@) == critical_ids(out, out.len() as int)
    &&& if res.critical_path@.len() == 0 {
        texts(res.warnings@) == seq![no_critical_warning()]
    } else {
        res.warnings@.len() == 0
    }
}

/// A link of task `a` names an id that no task has.
pub open spec fn unknown_link(net: Seq<Task>, a: int, i: int) -> bool {
    &&& 0 <= a < net.len()
    &&& 0 <= i < net[a].links.len()
    &&& !has_id(net, net[a].links[i].pred)
}

/// Every link names an existing task.
pub open spec fn all_known(net: Seq<Task>) -> bool {
    forall|a: int, i: int| !#[trigger] unknown_link(net, a, i)
}

/// Link `i` of task `a` is the first unknown link, in input order.
pub open spec fn first_unknown(net: Seq<Task>, a: int, i: int) -> bool {
    &&& unknown_link(net, a, i)
    &&& forall|a2: int, i2: int| 0 <= a2 < a ==> !#[trigger] unknown_link(net, a2, i2)
    &&& forall|i2: int| 0 <= i2 < i ==> !#[trigger] unknown_link(net, a, i2)
}

/// `lk[a][i]` is the first task whose id link `i` of task `a` names, for every task `a < upto`.
pub open spec fn resolved_upto(net: Seq<Task>, lk: Seq<Vec<usize>>, upto: int) -> bool {
    &&& forall|a: int| 0 <= a < upto ==> #[trigger] lk[a]@.len() == net[a].links.len()
    &&& forall|a: int, i: int|
        0 <= a < upto && 0 <= i < net[a].links.len() ==> {
            let j = #[trigger] lk[a]@[i] as int;
            &&& 0 <= j < net.len()
            &&& net[j].id == net[a].links[i].pred
            &&& forall|j2: int| 0 <= j2 < j ==> net[j2].id != net[a].links[i].pred
        }
}

/// `lk[a][i]` is the first task whose id link `i` of task `a` names.
pub open spec fn resolved(net: Seq<Task>, lk: Seq<Vec<usize>>) -> bool {
    &&& lk.len() == net.len()
    &&& resolved_upto(net, lk, net.len() as int)
}

/// The first activity whose id is `id`, if any.
fn find_index(input: &[Activity], id: &String) -> (r: Option<usize>)
    ensures
        match r {
            Some(j) => {
                &&& j < input@.len()
                &&& input@[j as int].id@ == id@
                &&& forall|j2: int| 0 <= j2 < j ==> input@[j2].id@ != id@
            },
            None => forall|j: int| 0 <= j < input@.len() ==> input@[j].id@ != id@,
        },
{
    let mut j: usize = 0;
    while j < input.len()
        invariant
            j <= input@.len(),
            forall|j2: int| 0 <= j2 < j ==> input@[j2].id@ != id@,
        decreases input@.len() - j,
    {
        if input[j].id == *id {
            return Some(j);
        }
        j += 1;
    }
    None
}

/// Resolves every predecessor link to the first activity with the id it names, or
/// reports the first link (in input order) that names no activity.
fn resolve_links(input: &[Activity]) -> (r: Result<Vec<Vec<usize>>, SchedulerError>)
    ensures
        r is Ok <==> all_known(network(input@)),
        r matches Ok(lk) ==> resolved(network(input@), lk@),
        r matches Err(e) ==> (e matches SchedulerError::UnknownPredecessor { activity, pred } && exists|a: int, i: int|
            #[trigger] first_unknown(network(input@), a, i) && activity@ == network(input@)[a].id
                && pred@ == network(input@)[a].links[i].pred),
{
    let ghost net = network(input@);
    let mut lk: Vec<Vec<usize>> = Vec::new();
    let mut a: usize = 0;
    while a < input.len()
        invariant
            a <= input@.len(),
            net == network(input@),
            lk@.len() == a,
            forall|a2: int, i2: int| 0 <= a2 < a ==> !#[trigger] unknown_link(net, a2, i2),
            resolved_upto(net, lk@, a as int),
        decreases input@.len() - a,
    {
        let preds = &input[a].predecessors;
        let mut row: Vec<usize> = Vec::new();
        let mut i: usize = 0;
        while i < preds.len()
            invariant
                a < input@.len(),
                net == network(input@),
                *preds == input@[a as int].predecessors,
                i <= preds@.len(),
                row@.len() == i,
                forall|a2: int, i2: int| 0 <= a2 < a ==> !#[trigger] unknown_link(net, a2, i2),
                forall|i2: int| 0 <= i2 < i ==> !#[trigger] unknown_link(net, a as int, i2),
                forall|i2: int| 0 <= i2 < i ==> {
                    let j = #[trigger] row@[i2] as int;
                    &&& j < net.len()
                    &&& net[j].id == net[a as int].links[i2].pred
                    &&& forall|j2: int| 0 <= j2 < j ==> net[j2].id != net[a as int].links[i2].pred
                },
            decreases preds@.len() - i,
        {
            match find_index(input, &preds[i].activity_id) {
                Some(j) => {
                    proof {
                        assert(net[a as int].links[i as int].pred == preds@[i as int].activity_id@);
                        assert(net[j as int].id == input@[j as int].id@);
                        assert(has_id(net, net[a as int].links[i as int].pred));
                        assert forall|j2: int| 0 <= j2 < j implies net[j2].id != net[a as int].links[i as int].pred by {
                            assert(net[j2].id == input@[j2].id@);
                        }
                    }
                    row.push(j);
                },
                None => {
                    proof {
                        assert(net[a as int].links[i as int].pred == preds@[i as int].activity_id@);
                        assert forall|j: int| 0 <= j < net.len() implies net[j].id != net[a as int].links[i as int].pred by {
                            assert(net[j].id == input@[j].id@);
                        }
                        assert(unknown_link(net, a as int, i as int));
                        assert(first_unknown(net, a as int, i as int));
                    }
                    return Err(SchedulerError::UnknownPredecessor {
                        activity: input[a].id.clone(),
                        pred: preds[i].activity_id.clone(),
                    });
                },
            }
            i += 1;
        }
        let ghost old_lk = lk@;
        lk.push(row);
        proof {
            assert forall|a2: int| 0 <= a2 <= a implies #[trigger] lk@[a2]@.len() == net[a2].links.len() by {
                if a2 < a { assert(lk@[a2] == old_lk[a2]); }
            }
            assert forall|a2: int, i2: int| 0 <= a2 <= a && 0 <= i2 < net[a2].links.len() implies {
                let j = #[trigger] lk@[a2]@[i2] as int;
                &&& 0 <= j < net.len()
                &&& net[j].id == net[a2].links[i2].pred
                &&& forall|j2: int| 0 <= j2 < j ==> net[j2].id != net[a2].links[i2].pred
            } by {
                if a2 < a { assert(lk@[a2] == old_lk[a2]); }
            }
        }
        a += 1;
    }
    Ok(lk)
}


/// Every task with id `x` has the ids that its links name in `t`.
pub open spec fn group_ready(net: Seq<Task>, t: Set<Seq<char>>, x: Seq<char>) -> bool {
    forall|a: int, i: int|
        0 <= a < net.len() && net[a].id == x && 0 <= i < net[a].links.len() ==> t.contains(
            #[trigger] net[a].links[i].pred,
        )
}

/// `t` holds the id of every task whose group is ready in `t`.
pub open spec fn closed(net: Seq<Task>, t: Set<Seq<char>>) -> bool {
    forall|j: int| 0 <= j < net.len() && #[trigger] group_ready(net, t, net[j].id) ==> t.contains(net[j].id)
}

/// The id `x` can be scheduled: it is in every set of ids closed under readiness, that is,
/// it does not depend, directly or through other ids, on a cycle.
pub open spec fn schedulable(net: Seq<Task>, x: Seq<char>) -> bool {
    forall|t: Set<Seq<char>>| #[trigger] closed(net, t) ==> t.contains(x)
}

/// The ids, in order, of the first `k` tasks that cannot be scheduled.
pub open spec fn blocked_ids(net: Seq<Task>, k: int) -> Seq<Seq<char>>
    decreases k,
{
    if k <= 0 {
        Seq::empty()
    } else if schedulable(net, net[k - 1].id) {
        blocked_ids(net, k - 1)
    } else {
        blocked_ids(net, k - 1).push(net[k - 1].id)
    }
}

/// `rep[j]` is the first task that has the id of task `j`.
pub open spec fn first_of_id(net: Seq<Task>, rep: Seq<usize>) -> bool {
    &&& rep.len() == net.len()
    &&& forall|j: int|
        0 <= j < net.len() ==> {
            let r = #[trigger] rep[j] as int;
            &&& r <= j
            &&& net[r].id == net[j].id
            &&& forall|j2: int| 0 <= j2 < r ==> net[j2].id != net[j].id
        }
}

/// The number of `true` among the first `k` entries.
pub open spec fn count_true(s: Seq<bool>, k: int) -> int
    decreases k,
{
    if k <= 0 {
        0
    } else {
        count_true(s, k - 1) + if s[k - 1] { 1int } else { 0int }
    }
}

proof fn lemma_count_bound(s: Seq<bool>, k: int)
    requires
        0 <= k,
    ensures
        0 <= count_true(s, k) <= k,
        (forall|j: int| 0 <= j < k ==> s[j]) ==> count_true(s, k) == k,
    decreases k,
{
    if k > 0 {
        lemma_count_bound(s, k - 1);
    }
}

proof fn lemma_count_set(s: Seq<bool>, r: int, k: int)
    requires
        0 <= r < s.len(),
        !s[r],
        0 <= k <= s.len(),
    ensures
        count_true(s.update(r, true), k) == count_true(s, k) + if r < k { 1int } else { 0int },
    decreases k,
{
    if k > 0 {
        lemma_count_set(s, r, k - 1);
    }
}

/// The first task with the id of each task.
fn first_occurrences(input: &[Activity]) -> (rep: Vec<usize>)
    ensures
        first_of_id(network(input@), rep@),
{
    let ghost net = network(input@);
    let mut rep: Vec<usize> = Vec::new();
    let mut j: usize = 0;
    while j < input.len()
        invariant
            net == network(input@),
            j <= input@.len(),
            rep@.len() == j,
            forall|j1: int|
                0 <= j1 < j ==> {
                    let r = #[trigger] rep@[j1] as int;
                    &&& r <= j1
                    &&& net[r].id == net[j1].id
                    &&& forall|j2: int| 0 <= j2 < r ==> net[j2].id != net[j1].id
                },
        decreases input@.len() - j,
    {
        let r = match find_index(input, &input[j].id) {
            Some(r) => r,
            None => j,
        };
        proof {
            assert(net[j as int].id == input@[j as int].id@);
            assert(net[r as int].id == input@[r as int].id@);
            assert forall|j2: int| 0 <= j2 < r implies net[j2].id != net[j as int].id by {
                assert(net[j2].id == input@[j2].id@);
            }
        }
        rep.push(r);
        j += 1;
    }
    rep
}


/// The state of the settling rounds: `order` lists the settled first-of-id tasks, `pos` gives
/// each its place in `order`, every settled task can be scheduled, and each comes after the
/// tasks that its group's links name.
pub open spec fn settle_inv(
    net: Seq<Task>,
    lk: Seq<Vec<usize>>,
    rep: Seq<usize>,
    done: Seq<bool>,
    pos: Seq<usize>,
    order: Seq<usize>,
) -> bool {
    &&& done.len() == net.len()
    &&& pos.len() == net.len()
    &&& order.len() == count_true(done, net.len() as int)
    &&& forall|r: int|
        0 <= r < net.len() && #[trigger] done[r] ==> {
            &&& rep[r] == r
            &&& pos[r] < order.len()
            &&& order[pos[r] as int] == r
            &&& schedulable(net, net[r].id)
        }
    &&& forall|k: int|
        0 <= k < order.len() ==> {
            &&& (#[trigger] order[k]) < net.len()
            &&& done[order[k] as int]
            &&& pos[order[k] as int] == k
        }
    &&& forall|a: int, i: int|
        #![trigger lk[a]@[i]]
        0 <= a < net.len() && 0 <= i < net[a].links.len() && done[rep[a] as int] ==> {
            &&& done[lk[a]@[i] as int]
            &&& pos[lk[a]@[i] as int] < pos[rep[a] as int]
        }
}

/// Two tasks that share an id have the same first task of that id.
proof fn lemma_first_unique(net: Seq<Task>, rep: Seq<usize>, a: int, b: int)
    requires
        first_of_id(net, rep),
        0 <= a < net.len(),
        0 <= b < net.len(),
        net[a].id == net[b].id,
    ensures
        rep[a] == rep[b],
{
    let ra = rep[a] as int;
    let rb = rep[b] as int;
    if ra < rb {
        assert(net[ra].id == net[b].id);
    } else if rb < ra {
        assert(net[rb].id == net[a].id);
    }
}

/// The task that a link resolves to is the first of its id.
proof fn lemma_link_is_first(net: Seq<Task>, lk: Seq<Vec<usize>>, rep: Seq<usize>, a: int, i: int)
    requires
        first_of_id(net, rep),
        resolved(net, lk),
        0 <= a < net.len(),
        0 <= i < net[a].links.len(),
    ensures
        rep[lk[a]@[i] as int] == lk[a]@[i],
{
    let j = lk[a]@[i] as int;
    let r = rep[j] as int;
    if r < j {
        assert(net[r].id == net[j].id);
    }
}

proof fn lemma_count_zero(s: Seq<bool>, k: int)
    requires
        0 <= k <= s.len(),
        forall|j: int| 0 <= j < k ==> !s[j],
    ensures
        count_true(s, k) == 0,
    decreases k,
{
    if k > 0 {
        lemma_count_zero(s, k - 1);
    }
}

/// A first-of-id task all of whose group's links name schedulable ids is schedulable.
proof fn lemma_ready_is_schedulable(net: Seq<Task>, lk: Seq<Vec<usize>>, rep: Seq<usize>, r: int)
    requires
        resolved(net, lk),
        first_of_id(net, rep),
        0 <= r < net.len(),
        rep[r] == r,
        forall|a: int, i: int|
            #![trigger lk[a]@[i]]
            0 <= a < net.len() && 0 <= i < net[a].links.len() && rep[a] == r ==> schedulable(
                net,
                net[lk[a]@[i] as int].id,
            ),
    ensures
        schedulable(net, net[r].id),
{
    assert forall|t: Set<Seq<char>>| #[trigger] closed(net, t) implies t.contains(net[r].id) by {
        assert forall|a: int, i: int|
            0 <= a < net.len() && net[a].id == net[r].id && 0 <= i < net[a].links.len() implies t.contains(
            #[trigger] net[a].links[i].pred) by {
            lemma_first_unique(net, rep, a, r);
            let j = lk[a]@[i] as int;
            assert(schedulable(net, net[j].id));
            assert(net[j].id == net[a].links[i].pred);
        }
        assert(group_ready(net, t, net[r].id));
    }
}

/// When a round settles nothing, the settled ids are closed under readiness, so every
/// schedulable id is settled.
proof fn lemma_settle_complete(
    net: Seq<Task>,
    lk: Seq<Vec<usize>>,
    rep: Seq<usize>,
    done: Seq<bool>,
    blocked: Seq<bool>,
)
    requires
        resolved(net, lk),
        first_of_id(net, rep),
        done.len() == net.len(),
        blocked.len() == net.len(),
        forall|r: int| 0 <= r < net.len() && #[trigger] done[r] ==> rep[r] == r,
        forall|q: int| 0 <= q < net.len() && rep[q] == q && !blocked[q] ==> #[trigger] done[q],
        forall|r2: int|
            0 <= r2 < net.len() && #[trigger] blocked[r2] ==> exists|a2: int, i2: int|
                #![trigger lk[a2]@[i2]]
                0 <= a2 < net.len() && 0 <= i2 < net[a2].links.len() && rep[a2] == r2 && !done[lk[a2]@[i2] as int],
    ensures
        forall|j: int| 0 <= j < net.len() && schedulable(net, #[trigger] net[j].id) ==> done[rep[j] as int],
{
    let t = Set::new(|x: Seq<char>| exists|r: int| 0 <= r < net.len() && done[r] && #[trigger] net[r].id == x);
    assert forall|j: int| 0 <= j < net.len() && #[trigger] group_ready(net, t, net[j].id) implies t.contains(net[j].id) by {
        let r = rep[j] as int;
        lemma_first_unique(net, rep, r, j);
        if done[r] {
            assert(net[r].id == net[j].id);
        } else {
            assert(blocked[r]);
            let (a, i) = choose|a2: int, i2: int|
                #![trigger lk[a2]@[i2]]
                0 <= a2 < net.len() && 0 <= i2 < net[a2].links.len() && rep[a2] == r && !done[lk[a2]@[i2] as int];
            let l = lk[a]@[i] as int;
            assert(net[a].id == net[j].id);
            assert(t.contains(net[a].links[i].pred));
            let r2 = choose|r2: int| 0 <= r2 < net.len() && done[r2] && #[trigger] net[r2].id == net[a].links[i].pred;
            lemma_first_unique(net, rep, r2, l);
            lemma_link_is_first(net, lk, rep, a, i);
            assert(false);
        }
    }
    assert(closed(net, t));
    assert forall|j: int| 0 <= j < net.len() && schedulable(net, #[trigger] net[j].id) implies done[rep[j] as int] by {
        assert(t.contains(net[j].id));
        let r2 = choose|r2: int| 0 <= r2 < net.len() && done[r2] && #[trigger] net[r2].id == net[j].id;
        lemma_first_unique(net, rep, r2, j);
    }
}

/// Settles, round after round, every first-of-id task whose group's links all name settled
/// tasks. At the end exactly the schedulable ids are settled.
fn settle(input: &[Activity], lk: &Vec<Vec<usize>>, rep: &Vec<usize>) -> (res: (Vec<bool>, Vec<usize>, Vec<usize>))
    requires
        resolved(network(input@), lk@),
        first_of_id(network(input@), rep@),
    ensures
        settle_inv(network(input@), lk@, rep@, res.0@, res.1@, res.2@),
        forall|j: int|
            0 <= j < input@.len() ==> (res.0@[rep@[j] as int] <==> schedulable(
                network(input@),
                #[trigger] network(input@)[j].id,
            )),
{
    let ghost net = network(input@);
    let n = input.len();
    let mut done: Vec<bool> = vec![false; n];
    let mut pos: Vec<usize> = vec![n; n];
    let mut order: Vec<usize> = Vec::new();
    proof {
        lemma_count_zero(done@, n as int);
    }
    loop
        invariant_except_break
            net == network(input@),
            n == input@.len(),
            resolved(net, lk@),
            first_of_id(net, rep@),
            settle_inv(net, lk@, rep@, done@, pos@, order@),
        ensures
            settle_inv(net, lk@, rep@, done@, pos@, order@),
            forall|j: int| 0 <= j < net.len() && schedulable(net, #[trigger] net[j].id) ==> done@[rep@[j] as int],
        decreases n - order@.len(),
    {
        proof {
            lemma_count_bound(done@, n as int);
        }
        // which first-of-id tasks have a group member with an unsettled predecessor
        let mut blocked: Vec<bool> = vec![false; n];
        let mut a: usize = 0;
        while a < n
            invariant
                net == network(input@),
                n == input@.len(),
                resolved(net, lk@),
                first_of_id(net, rep@),
                done@.len() == n,
                blocked@.len() == n,
                a <= n,
                forall|r: int|
                    0 <= r < n && !#[trigger] blocked@[r] ==> forall|a2: int, i2: int|
                        #![trigger lk@[a2]@[i2]]
                        0 <= a2 < a && 0 <= i2 < net[a2].links.len() && rep@[a2] == r ==> done@[lk@[a2]@[i2] as int],
                forall|r: int|
                    0 <= r < n && #[trigger] blocked@[r] ==> exists|a2: int, i2: int|
                        #![trigger lk@[a2]@[i2]]
                        0 <= a2 < n && 0 <= i2 < net[a2].links.len() && rep@[a2] == r && !done@[lk@[a2]@[i2] as int],
            decreases n - a,
        {
            let row = &lk[a];
            let mut i: usize = 0;
            while i < row.len()
                invariant
                    net == network(input@),
                    n == input@.len(),
                    resolved(net, lk@),
                    first_of_id(net, rep@),
                    a < n,
                    *row == lk@[a as int],
                    done@.len() == n,
                    blocked@.len() == n,
                    i <= row@.len(),
                    forall|r: int|
                        0 <= r < n && !#[trigger] blocked@[r] ==> forall|a2: int, i2: int|
                            #![trigger lk@[a2]@[i2]]
                            0 <= a2 < a && 0 <= i2 < net[a2].links.len() && rep@[a2] == r ==> done@[lk@[a2]@[i2] as int],
                    !blocked@[rep@[a as int] as int] ==> forall|i2: int|
                        0 <= i2 < i ==> done@[#[trigger] lk@[a as int]@[i2] as int],
                    forall|r: int|
                        0 <= r < n && #[trigger] blocked@[r] ==> exists|a2: int, i2: int|
                            #![trigger lk@[a2]@[i2]]
                            0 <= a2 < n && 0 <= i2 < net[a2].links.len() && rep@[a2] == r && !done@[lk@[a2]@[i2] as int],
                decreases row@.len() - i,
            {
                let j = row[i];
                if !done[j] {
                    let r = rep[a];
                    proof {
                        assert(lk@[a as int]@[i as int] == j);
                    }
                    blocked.set(r, true);
                }
                i += 1;
            }
            a += 1;
        }
        // settle every unblocked first-of-id task
        let ghost done0 = done@;
        let ghost pos0 = pos@;
        let before = order.len();
        let mut r: usize = 0;
        while r < n
            invariant
                net == network(input@),
                n == input@.len(),
                resolved(net, lk@),
                first_of_id(net, rep@),
                blocked@.len() == n,
                done0.len() == n,
                r <= n,
                before <= order@.len(),
                settle_inv(net, lk@, rep@, done@, pos@, order@),
                forall|q: int| 0 <= q < n && #[trigger] done0[q] ==> done@[q] && pos@[q] == pos0[q] && pos0[q] < before,
                forall|q: int| 0 <= q < n && #[trigger] done@[q] && !done0[q] ==> before <= pos@[q],
                forall|q: int| 0 <= q < r && rep@[q] == q && !blocked@[q] ==> #[trigger] done@[q],
                forall|r2: int|
                    0 <= r2 < n && !#[trigger] blocked@[r2] ==> forall|a2: int, i2: int|
                        #![trigger lk@[a2]@[i2]]
                        0 <= a2 < n && 0 <= i2 < net[a2].links.len() && rep@[a2] == r2 ==> done0[lk@[a2]@[i2] as int],
                forall|r2: int|
                    0 <= r2 < n && #[trigger] blocked@[r2] ==> exists|a2: int, i2: int|
                        #![trigger lk@[a2]@[i2]]
                        0 <= a2 < n && 0 <= i2 < net[a2].links.len() && rep@[a2] == r2 && !done0[lk@[a2]@[i2] as int],
            decreases n - r,
        {
            if rep[r] == r && !done[r] && !blocked[r] {
                proof {
                    assert forall|a2: int, i2: int|
                        #![trigger lk@[a2]@[i2]]
                        0 <= a2 < net.len() && 0 <= i2 < net[a2].links.len() && rep@[a2] == r implies schedulable(
                        net,
                        net[lk@[a2]@[i2] as int].id,
                    ) by {
                        assert(done0[lk@[a2]@[i2] as int]);
                    }
                    lemma_ready_is_schedulable(net, lk@, rep@, r as int);
                    lemma_count_set(done@, r as int, n as int);
                }
                let ghost d1 = done@;
                let ghost p1 = pos@;
                let ghost o1 = order@;
                done.set(r, true);
                pos.set(r, order.len());
                order.push(r);
                proof {
                    assert forall|k: int| 0 <= k < o1.len() implies order@[k] != r by {
                        assert(d1[o1[k] as int]);
                    }
                    assert forall|a2: int, i2: int|
                        #![trigger lk@[a2]@[i2]]
                        0 <= a2 < n && 0 <= i2 < net[a2].links.len() && done@[rep@[a2] as int] implies {
                        &&& done@[lk@[a2]@[i2] as int]
                        &&& pos@[lk@[a2]@[i2] as int] < pos@[rep@[a2] as int]
                    } by {
                        lemma_link_is_first(net, lk@, rep@, a2, i2);
                        if rep@[a2] == r {
                            assert(done0[lk@[a2]@[i2] as int]);
                        } else {
                            assert(d1[rep@[a2] as int]);
                        }
                    }
                }
            }
            r += 1;
        }
        if order.len() == before {
            proof {
                assert forall|q: int| 0 <= q < n implies done@[q] == done0[q] by {
                    if done@[q] && !done0[q] {
                        assert(pos@[q] < order@.len());
                    }
                }
                assert(done@ =~= done0);
                lemma_settle_complete(net, lk@, rep@, done@, blocked@);
            }
            break;
        }
        proof {
            lemma_count_bound(done@, n as int);
        }
    }
    (done, pos, order)
}

/// With distinct ids every task is the first of its id.
proof fn lemma_distinct_iff_first(net: Seq<Task>, rep: Seq<usize>)
    requires
        first_of_id(net, rep),
    ensures
        ids_distinct(net) <==> forall|j: int| 0 <= j < net.len() ==> #[trigger] rep[j] == j,
{
    if forall|j: int| 0 <= j < net.len() ==> #[trigger] rep[j] == j {
        assert forall|a: int, b: int| 0 <= a < net.len() && 0 <= b < net.len() && a != b implies #[trigger] net[a].id
            != #[trigger] net[b].id by {
            if net[a].id == net[b].id {
                lemma_first_unique(net, rep, a, b);
            }
        }
    }
    if ids_distinct(net) {
        assert forall|j: int| 0 <= j < net.len() implies #[trigger] rep[j] == j by {
            let r = rep[j] as int;
            if r != j {
                assert(net[r].id == net[j].id);
            }
        }
    }
}

/// The activities in settling order, each with a blank result, and the positions of the
/// tasks that their links name.
fn arrange(
    input: &[Activity],
    lk: &Vec<Vec<usize>>,
    rep: &Vec<usize>,
    done: &Vec<bool>,
    pos: &Vec<usize>,
    order: &Vec<usize>,
) -> (res: (Vec<Activity>, Vec<Vec<usize>>))
    requires
        resolved(network(input@), lk@),
        first_of_id(network(input@), rep@),
        settle_inv(network(input@), lk@, rep@, done@, pos@, order@),
        forall|j: int| 0 <= j < input@.len() ==> #[trigger] rep@[j] == j,
        forall|j: int| 0 <= j < input@.len() ==> #[trigger] done@[j],
    ensures
        res.0@.len() == input@.len(),
        order@.len() == input@.len(),
        forall|k: int| 0 <= k < input@.len() ==> (#[trigger] order@[k]) < input@.len(),
        forall|k: int|
            0 <= k < input@.len() ==> (#[trigger] res.0@[k]).same_task(input@[order@[k] as int])
                && res.0@[k].cpm == CpmResult::blank(),
        forall|j: int|
            0 <= j < input@.len() ==> (#[trigger] pos@[j]) < input@.len() && res.0@[pos@[j] as int].same_task(
                input@[j],
            ),
        ids_distinct(network(res.0@)),
        ordered_links(network(res.0@), res.1@),
{
    let ghost net = network(input@);
    let n = input.len();
    proof {
        lemma_count_bound(done@, n as int);
        lemma_distinct_iff_first(net, rep@);
    }
    let mut base: Vec<Activity> = Vec::new();
    let mut pp: Vec<Vec<usize>> = Vec::new();
    let mut k: usize = 0;
    while k < n
        invariant
            net == network(input@),
            n == input@.len(),
            order@.len() == n,
            resolved(net, lk@),
            first_of_id(net, rep@),
            settle_inv(net, lk@, rep@, done@, pos@, order@),
            forall|j: int| 0 <= j < n ==> #[trigger] rep@[j] == j,
            forall|j: int| 0 <= j < n ==> #[trigger] done@[j],
            ids_distinct(net),
            k <= n,
            base@.len() == k,
            pp@.len() == k,
            forall|k1: int|
                0 <= k1 < k ==> (#[trigger] base@[k1]).same_task(input@[order@[k1] as int]) && base@[k1].cpm
                    == CpmResult::blank(),
            forall|k1: int| 0 <= k1 < k ==> #[trigger] pp@[k1]@.len() == net[order@[k1] as int].links.len(),
            forall|k1: int, i: int|
                0 <= k1 < k && 0 <= i < net[order@[k1] as int].links.len() ==> #[trigger] pp@[k1]@[i] == pos@[lk@[order@[k1] as int]@[i] as int],
        decreases n - k,
    {
        let a = order[k];
        let act = input[a].copy_with_result(CpmResult::default());
        let links = &lk[a];
        let mut row: Vec<usize> = Vec::new();
        let mut i: usize = 0;
        while i < links.len()
            invariant
                net == network(input@),
                a < n,
                n == input@.len(),
                pos@.len() == n,
                *links == lk@[a as int],
                resolved(net, lk@),
                i <= links@.len(),
                row@.len() == i,
                forall|i1: int| 0 <= i1 < i ==> #[trigger] row@[i1] == pos@[links@[i1] as int],
            decreases links@.len() - i,
        {
            proof {
                assert(lk@[a as int]@[i as int] < net.len());
            }
            row.push(pos[links[i]]);
            i += 1;
        }
        base.push(act);
        pp.push(row);
        k += 1;
    }
    let ghost nb = network(base@);
    proof {
        assert forall|k1: int| 0 <= k1 < n implies #[trigger] nb[k1] == net[order@[k1] as int] by {
            assert(base@[k1].same_task(input@[order@[k1] as int]));
            assert(task_of(base@[k1]).links =~= task_of(input@[order@[k1] as int]).links);
        }
        assert forall|a: int, b: int| 0 <= a < n && 0 <= b < n && a != b implies #[trigger] nb[a].id != #[trigger] nb[b].id by {
            assert(nb[a] == net[order@[a] as int]);
            assert(nb[b] == net[order@[b] as int]);
            assert(pos@[order@[a] as int] == a);
            assert(pos@[order@[b] as int] == b);
        }
        assert forall|k1: int, i: int| 0 <= k1 < n && 0 <= i < nb[k1].links.len() implies {
            &&& (#[trigger] pp@[k1]@[i]) < k1
            &&& nb[pp@[k1]@[i] as int].id == nb[k1].links[i].pred
        } by {
            let a = order@[k1] as int;
            assert(nb[k1] == net[a]);
            let l = lk@[a]@[i] as int;
            assert(done@[rep@[a] as int]);
            assert(pos@[l] < pos@[a]);
            assert(pos@[a] == k1);
            assert(order@[pos@[l] as int] == l);
            assert(nb[pos@[l] as int] == net[l]);
        }
        assert forall|j: int| 0 <= j < n implies (#[trigger] pos@[j]) < n && base@[pos@[j] as int].same_task(input@[j]) by {
            assert(done@[j]);
            assert(order@[pos@[j] as int] == j);
        }
    }
    (base, pp)
}

/// The ids, in input order, of the activities that cannot be scheduled.
fn unschedulable(input: &[Activity], rep: &Vec<usize>, done: &Vec<bool>) -> (ids: Vec<String>)
    requires
        first_of_id(network(input@), rep@),
        done@.len() == input@.len(),
        forall|j: int|
            0 <= j < input@.len() ==> (done@[rep@[j] as int] <==> schedulable(
                network(input@),
                #[trigger] network(input@)[j].id,
            )),
    ensures
        texts(ids@) == blocked_ids(network(input@), input@.len() as int),
{
    let ghost net = network(input@);
    let mut ids: Vec<String> = Vec::new();
    let mut j: usize = 0;
    while j < input.len()
        invariant
            net == network(input@),
            first_of_id(net, rep@),
            done@.len() == input@.len(),
            forall|j1: int|
                0 <= j1 < input@.len() ==> (done@[rep@[j1] as int] <==> schedulable(net, #[trigger] net[j1].id)),
            j <= input@.len(),
            texts(ids@) == blocked_ids(net, j as int),
        decreases input@.len() - j,
    {
        proof {
            assert(net[j as int].id == input@[j as int].id@);
            assert(rep@[j as int] < input@.len());
        }
        if !done[rep[j]] {
            let ghost old_ids = ids@;
            ids.push(input[j].id.clone());
            proof {
                assert(texts(ids@) =~= texts(old_ids).push(net[j as int].id));
            }
        }
        j += 1;
    }
    ids
}

/// Runs the Critical Path Method on `input`.
///
/// Fails with `EmptyProject` when there is nothing to schedule, with `UnknownPredecessor`
/// for the first link that names no activity, and with `CycleDetected` (listing the
/// activities that cannot be scheduled) when the activities form a cycle or share an id.
/// Otherwise returns the activities in an order where each follows its predecessors, with
/// earliest and latest dates, total and free float and criticality filled in.
pub fn run_cpm(input: &[Activity]) -> (r: Result<SchedulerResult, SchedulerError>)
    ensures
        (input@.len() == 0) <==> r matches Err(SchedulerError::EmptyProject),
        (r matches Err(SchedulerError::UnknownPredecessor { .. })) <==> (input@.len() > 0 && !all_known(
            network(input@),
        )),
        r matches Err(SchedulerError::UnknownPredecessor { activity, pred }) ==> exists|a: int, i: int|
            #[trigger] first_unknown(network(input@), a, i) && activity@ == network(input@)[a].id && pred@
                == network(input@)[a].links[i].pred,
        (r matches Err(SchedulerError::CycleDetected(_))) <==> (input@.len() > 0 && all_known(network(input@))
            && !(ids_distinct(network(input@)) && all_schedulable(network(input@)))),
        r matches Err(SchedulerError::CycleDetected(ids)) ==> texts(ids@) == blocked_ids(
            network(input@),
            input@.len() as int,
        ),
        r is Ok <==> (input@.len() > 0 && all_known(network(input@)) && ids_distinct(network(input@))
            && all_schedulable(network(input@))),
        r matches Ok(res) ==> schedule_of(input@, res),
{
    let ghost net = network(input@);
    let n = input.len();
    if n == 0 {
        return Err(SchedulerError::EmptyProject);
    }
    assert(input@.len() <= max_activities());
    let lk = match resolve_links(input) {
        Ok(lk) => lk,
        Err(e) => {
            return Err(e);
        },
    };
    let rep = first_occurrences(input);
    let (done, pos, order) = settle(input, &lk, &rep);
    if !all_settled(&rep, &done) {
        proof {
            lemma_distinct_iff_first(net, rep@);
            if ids_distinct(net) && all_schedulable(net) {
                assert forall|j1: int| 0 <= j1 < net.len() implies #[trigger] settled_first(rep@, done@, j1) by {
                    assert(rep@[j1] == j1);
                    assert(schedulable(net, net[j1].id));
                    assert(done@[rep@[j1] as int]);
                }
            }
        }
        return Err(SchedulerError::CycleDetected(unschedulable(input, &rep, &done)));
    }
    proof {
        lemma_distinct_iff_first(net, rep@);
        assert forall|j1: int| 0 <= j1 < net.len() implies #[trigger] rep@[j1] == j1 by {
            assert(settled_first(rep@, done@, j1));
        }
        assert forall|j1: int| 0 <= j1 < net.len() implies schedulable(net, #[trigger] net[j1].id) by {
            assert(settled_first(rep@, done@, j1));
        }
    }
    Ok(schedule_settled(input, &lk, &rep, &done, &pos, &order))
}

/// Task `j` is the first of its id and settled.
pub open spec fn settled_first(rep: Seq<usize>, done: Seq<bool>, j: int) -> bool {
    rep[j] == j && done[j]
}

/// Every task is the first of its id and settled.
fn all_settled(rep: &Vec<usize>, done: &Vec<bool>) -> (b: bool)
    requires
        rep@.len() == done@.len(),
    ensures
        b <==> forall|j: int| 0 <= j < rep@.len() ==> #[trigger] settled_first(rep@, done@, j),
{
    let mut j: usize = 0;
    while j < rep.len()
        invariant
            rep@.len() == done@.len(),
            j <= rep@.len(),
            forall|j1: int| 0 <= j1 < j ==> #[trigger] settled_first(rep@, done@, j1),
        decreases rep@.len() - j,
    {
        if rep[j] != j || !done[j] {
            proof {
                assert(!settled_first(rep@, done@, j as int));
            }
            return false;
        }
        let ghost j0 = j as int;
        j += 1;
        proof {
            assert forall|j1: int| 0 <= j1 < j implies #[trigger] settled_first(rep@, done@, j1) by {
                if j1 == j0 {
                    assert(rep@[j0] == j0);
                    assert(done@[j0]);
                    assert(settled_first(rep@, done@, j0));
                }
            }
        }
    }
    true
}

/// The CPM schedule of activities that all settled, with distinct ids.
fn schedule_settled(
    input: &[Activity],
    lk: &Vec<Vec<usize>>,
    rep: &Vec<usize>,
    done: &Vec<bool>,
    pos: &Vec<usize>,
    order: &Vec<usize>,
) -> (res: SchedulerResult)
    requires
        input@.len() > 0,
        input@.len() <= max_activities(),
        resolved(network(input@), lk@),
        first_of_id(network(input@), rep@),
        settle_inv(network(input@), lk@, rep@, done@, pos@, order@),
        forall|j: int| 0 <= j < input@.len() ==> #[trigger] settled_first(rep@, done@, j),
    ensures
        schedule_of(input@, res),
{
    let n = input.len();
    proof {
        assert forall|j: int| 0 <= j < input@.len() implies #[trigger] rep@[j] == j by {
            assert(settled_first(rep@, done@, j));
        }
        assert forall|j: int| 0 <= j < input@.len() implies #[trigger] done@[j] by {
            assert(settled_first(rep@, done@, j));
        }
    }
    let (base, pp) = arrange(input, lk, rep, done, pos, order);
    let ghost nb = network(base@);
    let (es, ef) = forward_pass(&base, &pp);
    let pd = max_finish(&ef);
    proof {
        let w = choose|w: int| 0 <= w < ef@.len() && pd == #[trigger] ef@[w];
        assert(ef@[w] < (w + 1) * step() + 0x8000_0000);
        assert((w + 1) * step() <= n * step());
    }
    let (ls, lf) = backward_pass(&base, &pp, pd);
    let (tf, crit, ff) = float_pass(&base, &pp, &es, &ef, &ls, &lf);
    let (out, path) = assemble(&base, &es, &ef, &ls, &lf, &tf, &crit, &ff);
    let warnings = warnings_for(&path);
    proof {
        lemma_schedule_rules(base@, pp@, out@, es@, ef@, ls@, lf@, tf@, crit@, ff@, pd as int);
        lemma_schedule_members(input@, base@, order@, pos@, out@);
    }
    SchedulerResult { activities: out, project_duration: pd, critical_path: path, warnings }
}

/// The critical ids of the first `k` activities do not change when one is appended.
proof fn lemma_critical_ids_prefix(s1: Seq<Activity>, s2: Seq<Activity>, k: int)
    requires
        0 <= k,
        s1.len() == k + 1,
        s2.len() == k,
        forall|j: int| 0 <= j < k ==> s1[j] == s2[j],
    ensures
        forall|k1: int| 0 <= k1 <= k ==> critical_ids(s1, k1) == critical_ids(s2, k1),
{
    assert forall|k1: int| 0 <= k1 <= k implies critical_ids(s1, k1) == critical_ids(s2, k1) by {
        lemma_critical_ids_upto(s1, s2, k1);
    }
}

proof fn lemma_critical_ids_upto(s1: Seq<Activity>, s2: Seq<Activity>, k: int)
    requires
        0 <= k <= s1.len(),
        k <= s2.len(),
        forall|j: int| 0 <= j < k ==> s1[j] == s2[j],
    ensures
        critical_ids(s1, k) == critical_ids(s2, k),
    decreases k,
{
    if k > 0 {
        lemma_critical_ids_upto(s1, s2, k - 1);
    }
}

/// The activities of `base` with their computed results, and the ids of the critical ones.
fn assemble(
    base: &Vec<Activity>,
    es: &Vec<i128>,
    ef: &Vec<i128>,
    ls: &Vec<i128>,
    lf: &Vec<i128>,
    tf: &Vec<i128>,
    crit: &Vec<bool>,
    ff: &Vec<i128>,
) -> (res: (Vec<Activity>, Vec<String>))
    requires
        es@.len() == base@.len(),
        ef@.len() == base@.len(),
        ls@.len() == base@.len(),
        lf@.len() == base@.len(),
        tf@.len() == base@.len(),
        ff@.len() == base@.len(),
        crit@.len() == base@.len(),
    ensures
        res.0@.len() == base@.len(),
        forall|k1: int|
            0 <= k1 < base@.len() ==> (#[trigger] res.0@[k1]).same_task(base@[k1]) && res.0@[k1].cpm == (CpmResult {
                es: es@[k1],
                ef: ef@[k1],
                ls: ls@[k1],
                lf: lf@[k1],
                tf: tf@[k1],
                ff: ff@[k1],
                critical: crit@[k1],
            }),
        texts(res.1@) == critical_ids(res.0@, base@.len() as int),
{
    let n = base.len();
    let mut out: Vec<Activity> = Vec::new();
    let mut path: Vec<String> = Vec::new();
    let mut k: usize = 0;
    while k < n
        invariant
            n == base@.len(),
            es@.len() == n,
            ef@.len() == n,
            ls@.len() == n,
            lf@.len() == n,
            tf@.len() == n,
            ff@.len() == n,
            crit@.len() == n,
            k <= n,
            out@.len() == k,
            forall|k1: int|
                0 <= k1 < k ==> (#[trigger] out@[k1]).same_task(base@[k1]) && out@[k1].cpm == (CpmResult {
                    es: es@[k1],
                    ef: ef@[k1],
                    ls: ls@[k1],
                    lf: lf@[k1],
                    tf: tf@[k1],
                    ff: ff@[k1],
                    critical: crit@[k1],
                }),
            texts(path@) == critical_ids(out@, k as int),
        decreases n - k,
    {
        let c = CpmResult { es: es[k], ef: ef[k], ls: ls[k], lf: lf[k], tf: tf[k], ff: ff[k], critical: crit[k] };
        let act = base[k].copy_with_result(c);
        let ghost out0 = out@;
        let ghost path0 = path@;
        if crit[k] {
            path.push(base[k].id.clone());
        }
        out.push(act);
        proof {
            lemma_critical_ids_prefix(out@, out0, k as int);
            if crit@[k as int] {
                assert(texts(path@) =~= texts(path0).push(out@[k as int].id@));
            } else {
                assert(texts(path@) =~= texts(path0));
            }
        }
        k += 1;
    }
    (out, path)
}

/// The warnings of a run: one when no activity is critical.
fn warnings_for(path: &Vec<String>) -> (w: Vec<String>)
    ensures
        if path@.len() == 0 {
            texts(w@) == seq![no_critical_warning()]
        } else {
            w@.len() == 0
        },
{
    let mut w: Vec<String> = Vec::new();
    if path.len() == 0 {
        let msg = "No critical path found \u{2014} all activities have float.";
        w.push(msg.to_string());
        proof {
            assert(texts(w@) =~= seq![no_critical_warning()]);
        }
    }
    w
}

/// The assembled activities obey the rules that the columns obey.
proof fn lemma_schedule_rules(
    base: Seq<Activity>,
    pp: Seq<Vec<usize>>,
    out: Seq<Activity>,
    es: Seq<i128>,
    ef: Seq<i128>,
    ls: Seq<i128>,
    lf: Seq<i128>,
    tf: Seq<i128>,
    crit: Seq<bool>,
    ff: Seq<i128>,
    pd: int,
)
    requires
        ids_distinct(network(base)),
        ordered_links(network(base), pp),
        out.len() == base.len(),
        es.len() == base.len(),
        ef.len() == base.len(),
        ls.len() == base.len(),
        lf.len() == base.len(),
        tf.len() == base.len(),
        ff.len() == base.len(),
        crit.len() == base.len(),
        forall|k1: int|
            0 <= k1 < base.len() ==> (#[trigger] out[k1]).same_task(base[k1]) && out[k1].cpm == (CpmResult {
                es: es[k1],
                ef: ef[k1],
                ls: ls[k1],
                lf: lf[k1],
                tf: tf[k1],
                ff: ff[k1],
                critical: crit[k1],
            }),
        forall|k: int| 0 <= k < base.len() ==> #[trigger] start_rule(network(base), es, ef, k),
        forall|k: int| 0 <= k < base.len() ==> #[trigger] finish_rule(network(base), es, ef, k),
        duration_rule(ef, pd),
        forall|k: int| 0 <= k < base.len() ==> #[trigger] late_finish_rule(network(base), ls, lf, pd, k),
        forall|k: int| 0 <= k < base.len() ==> #[trigger] late_start_rule(network(base), ls, lf, k),
        forall|k: int| 0 <= k < base.len() ==> #[trigger] total_float_rule(es, ls, tf, crit, k),
        forall|k: int| 0 <= k < base.len() ==> #[trigger] free_float_rule(network(base), es, ef, lf, ff, k),
    ensures
        is_cpm_schedule(out, pd),
{
    let n = base.len();
    let nb = network(base);
    assert forall|k1: int| 0 <= k1 < n implies #[trigger] network(out)[k1] == nb[k1] by {
        assert(task_of(out[k1]).links =~= task_of(base[k1]).links);
    }
    assert(network(out) =~= nb);
    assert(es_col(out) =~= es);
    assert(ef_col(out) =~= ef);
    assert(ls_col(out) =~= ls);
    assert(lf_col(out) =~= lf);
    assert(tf_col(out) =~= tf);
    assert(ff_col(out) =~= ff);
    assert(crit_col(out) =~= crit);
    lemma_names_resolved(nb, pp);
}

/// The assembled activities are the input activities, each exactly once.
proof fn lemma_schedule_members(
    input: Seq<Activity>,
    base: Seq<Activity>,
    order: Seq<usize>,
    pos: Seq<usize>,
    out: Seq<Activity>,
)
    requires
        base.len() == input.len(),
        order.len() == input.len(),
        out.len() == base.len(),
        forall|k: int| 0 <= k < input.len() ==> (#[trigger] order[k]) < input.len(),
        forall|k: int| 0 <= k < input.len() ==> (#[trigger] base[k]).same_task(input[order[k] as int]),
        forall|j: int| 0 <= j < input.len() ==> (#[trigger] pos[j]) < input.len() && base[pos[j] as int].same_task(input[j]),
        forall|k1: int| 0 <= k1 < base.len() ==> (#[trigger] out[k1]).same_task(base[k1]),
        ids_distinct(network(base)),
    ensures
        forall|k: int| 0 <= k < out.len() ==> #[trigger] drawn_from(out, input, k),
        forall|j: int| 0 <= j < input.len() ==> #[trigger] kept_in(out, input, j),
        ids_distinct(network(out)),
{
    assert forall|a: int, b: int| 0 <= a < out.len() && 0 <= b < out.len() && a != b implies #[trigger] network(out)[a].id
        != #[trigger] network(out)[b].id by {
        assert(out[a].same_task(base[a]));
        assert(out[b].same_task(base[b]));
        assert(network(base)[a].id != network(base)[b].id);
    }
    assert forall|k1: int| 0 <= k1 < out.len() implies #[trigger] drawn_from(out, input, k1) by {
        assert(out[k1].same_task(base[k1]));
        assert(base[k1].same_task(input[order[k1] as int]));
        assert(out[k1].same_task(input[order[k1] as int]));
    }
    assert forall|j1: int| 0 <= j1 < input.len() implies #[trigger] kept_in(out, input, j1) by {
        let k1 = pos[j1] as int;
        assert(out[k1].same_task(base[k1]));
        assert(out[k1].same_task(input[j1]));
    }
}

} // verus!
