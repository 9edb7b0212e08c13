//! The mathematical model of a schedule: the precedence network of the activities
//! and the rules of the Critical Path Method that the computed dates satisfy.
use vstd::prelude::*;
use crate::activity::{Activity, Predecessor, RelType};

verus! {

/// A precedence link as the network sees it: the predecessor's id, the kind and the lag.
pub struct Link {
    pub pred: Seq<char>,
    pub rel: RelType,
    pub lag: int,
}

/// An activity as the network sees it.
pub struct Task {
    pub id: Seq<char>,
    pub duration: int,
    pub links: Seq<Link>,
}

pub open spec fn link_of(p: Predecessor) -> Link {
    Link { pred: p.activity_id@, rel: p.rel_type, lag: p.lag as int }
}

pub open spec fn task_of(a: Activity) -> Task {
    Task {
        id: a.id@,
        duration: a.duration as int,
        links: a.predecessors@.map_values(|p: Predecessor| link_of(p)),
    }
}

/// The precedence network of a sequence of activities.
pub open spec fn network(s: Seq<Activity>) -> Seq<Task> {
    s.map_values(|a: Activity| task_of(a))
}

/// No two tasks share an id.
pub open spec fn ids_distinct(net: Seq<Task>) -> bool {
    forall|a: int, b: int|
        0 <= a < net.len() && 0 <= b < net.len() && a != b ==> #[trigger] net[a].id != #[trigger] net[b].id
}

/// Some task has id `id`.
pub open spec fn has_id(net: Seq<Task>, id: Seq<char>) -> bool {
    exists|j: int| 0 <= j < net.len() && #[trigger] net[j].id == id
}

/// Link `i` of task `k` names task `j` as its predecessor.
pub open spec fn names(net: Seq<Task>, k: int, i: int, j: int) -> bool {
    &&& 0 <= k < net.len()
    &&& 0 <= i < net[k].links.len()
    &&& 0 <= j < net.len()
    &&& net[j].id == net[k].links[i].pred
}

/// Every task comes after each of the tasks that it names as predecessors.
pub open spec fn precedes_all(net: Seq<Task>) -> bool {
    forall|k: int, i: int, j: int| #[trigger] names(net, k, i, j) ==> j < k
}

/// Link `i` of task `m` is the first of its links that names task `k`.
pub open spec fn first_link(net: Seq<Task>, m: int, i: int, k: int) -> bool {
    &&& names(net, m, i, k)
    &&& forall|i2: int| 0 <= i2 < i ==> net[m].links[i2].pred != net[k].id
}

/// Some task names task `k` as a predecessor.
pub open spec fn has_successor(net: Seq<Task>, k: int) -> bool {
    exists|m: int, i: int| #[trigger] first_link(net, m, i, k)
}

pub open spec fn max0(v: int) -> int {
    if v < 0 { 0 } else { v }
}

/// The earliest start that link `i` of task `k` (to task `j`) allows.
pub open spec fn start_term(net: Seq<Task>, es: Seq<i128>, ef: Seq<i128>, k: int, i: int, j: int) -> int {
    let l = net[k].links[i];
    match l.rel {
        RelType::FS => ef[j] + l.lag,
        RelType::SS => es[j] + l.lag,
        RelType::FF => ef[j] + l.lag - net[k].duration,
        RelType::SF => es[j] + l.lag - net[k].duration,
    }
}

/// Forward pass: the earliest start of task `k` is the largest start that its links
/// allow, and never before day 0.
pub open spec fn start_rule(net: Seq<Task>, es: Seq<i128>, ef: Seq<i128>, k: int) -> bool {
    &&& es[k] >= 0
    &&& forall|i: int, j: int| #[trigger] names(net, k, i, j) ==> es[k] >= start_term(net, es, ef, k, i, j)
    &&& es[k] == 0 || exists|i: int, j: int| #[trigger] names(net, k, i, j) && es[k] == start_term(net, es, ef, k, i, j)
}

/// The earliest finish is the earliest start plus the duration.
pub open spec fn finish_rule(net: Seq<Task>, es: Seq<i128>, ef: Seq<i128>, k: int) -> bool {
    ef[k] == es[k] + net[k].duration
}

/// The project duration is the largest earliest finish.
pub open spec fn duration_rule(ef: Seq<i128>, pd: int) -> bool {
    &&& forall|k: int| 0 <= k < ef.len() ==> pd >= #[trigger] ef[k]
    &&& exists|k: int| 0 <= k < ef.len() && pd == #[trigger] ef[k]
}

/// The latest finish of task `k` that its successor `m` (through link `i`) allows.
pub open spec fn late_term(net: Seq<Task>, ls: Seq<i128>, lf: Seq<i128>, k: int, m: int, i: int) -> int {
    let l = net[m].links[i];
    match l.rel {
        RelType::FS => ls[m] - l.lag,
        RelType::SS => ls[m] - l.lag + net[k].duration,
        RelType::FF => lf[m] - l.lag,
        RelType::SF => lf[m] - l.lag + net[k].duration,
    }
}

/// Backward pass: a task with successors finishes at the latest when the first of them
/// requires it; a task without successors at the project duration.
pub open spec fn late_finish_rule(net: Seq<Task>, ls: Seq<i128>, lf: Seq<i128>, pd: int, k: int) -> bool {
    if has_successor(net, k) {
        &&& forall|m: int, i: int| #[trigger] first_link(net, m, i, k) ==> lf[k] <= late_term(net, ls, lf, k, m, i)
        &&& exists|m: int, i: int| #[trigger] first_link(net, m, i, k) && lf[k] == late_term(net, ls, lf, k, m, i)
    } else {
        lf[k] == pd
    }
}

/// The latest start is the latest finish less the duration.
pub open spec fn late_start_rule(net: Seq<Task>, ls: Seq<i128>, lf: Seq<i128>, k: int) -> bool {
    ls[k] == lf[k] - net[k].duration
}

/// Total float is LS - ES (never below 0); a task is critical when it has none.
pub open spec fn total_float_rule(es: Seq<i128>, ls: Seq<i128>, tf: Seq<i128>, crit: Seq<bool>, k: int) -> bool {
    &&& tf[k] == max0(ls[k] - es[k])
    &&& crit[k] == (tf[k] == 0)
}

/// The float that successor `m` (through link `i`) leaves task `k`.
pub open spec fn free_term(net: Seq<Task>, es: Seq<i128>, ef: Seq<i128>, k: int, m: int, i: int) -> int {
    let l = net[m].links[i];
    match l.rel {
        RelType::FS => es[m] - ef[k] - l.lag,
        RelType::SS => es[m] - es[k] - l.lag,
        RelType::FF => ef[m] - ef[k] - l.lag,
        RelType::SF => ef[m] - es[k] - l.lag,
    }
}

/// Free float: the least float that any successor leaves (never below 0); for a task
/// without successors, LF - EF.
pub open spec fn free_float_rule(
    net: Seq<Task>,
    es: Seq<i128>,
    ef: Seq<i128>,
    lf: Seq<i128>,
    ff: Seq<i128>,
    k: int,
) -> bool {
    if has_successor(net, k) {
        &&& forall|m: int, i: int| #[trigger] first_link(net, m, i, k) ==> ff[k] <= max0(free_term(net, es, ef, k, m, i))
        &&& exists|m: int, i: int| #[trigger] first_link(net, m, i, k) && ff[k] == max0(free_term(net, es, ef, k, m, i))
    } else {
        ff[k] == lf[k] - ef[k]
    }
}

/// The earliest starts of a sequence of activities.
pub open spec fn es_col(s: Seq<Activity>) -> Seq<i128> {
    s.map_values(|a: Activity| a.cpm.es)
}

/// The earliest finishes.
pub open spec fn ef_col(s: Seq<Activity>) -> Seq<i128> {
    s.map_values(|a: Activity| a.cpm.ef)
}

/// The latest starts.
pub open spec fn ls_col(s: Seq<Activity>) -> Seq<i128> {
    s.map_values(|a: Activity| a.cpm.ls)
}

/// The latest finishes.
pub open spec fn lf_col(s: Seq<Activity>) -> Seq<i128> {
    s.map_values(|a: Activity| a.cpm.lf)
}

/// The total floats.
pub open spec fn tf_col(s: Seq<Activity>) -> Seq<i128> {
    s.map_values(|a: Activity| a.cpm.tf)
}

/// The free floats.
pub open spec fn ff_col(s: Seq<Activity>) -> Seq<i128> {
    s.map_values(|a: Activity| a.cpm.ff)
}

/// Which activities are critical.
pub open spec fn crit_col(s: Seq<Activity>) -> Seq<bool> {
    s.map_values(|a: Activity| a.cpm.critical)
}

/// The CPM results of `out` obey every rule of the method at position `k`.
pub open spec fn rules_at(out: Seq<Activity>, pd: int, k: int) -> bool {
    let net = network(out);
    &&& start_rule(net, es_col(out), ef_col(out), k)
    &&& finish_rule(net, es_col(out), ef_col(out), k)
    &&& late_finish_rule(net, ls_col(out), lf_col(out), pd, k)
    &&& late_start_rule(net, ls_col(out), lf_col(out), k)
    &&& total_float_rule(es_col(out), ls_col(out), tf_col(out), crit_col(out), k)
    &&& free_float_rule(net, es_col(out), ef_col(out), lf_col(out), ff_col(out), k)
}

/// `out` is a complete CPM schedule with project duration `pd`: every activity comes after
/// its predecessors, and every date and float obeys the rules of the method.
pub open spec fn is_cpm_schedule(out: Seq<Activity>, pd: int) -> bool {
    &&& precedes_all(network(out))
    &&& duration_rule(ef_col(out), pd)
    &&& forall|k: int| 0 <= k < out.len() ==> #[trigger] rules_at(out, pd, k)
}

/// The ids, in order, of the critical activities among the first `k` of `out`.
pub open spec fn critical_ids(out: Seq<Activity>, k: int) -> Seq<Seq<char>>
    decreases k,
{
    if k <= 0 {
        Seq::empty()
    } else if out[k - 1].cpm.critical {
        critical_ids(out, k - 1).push(out[k - 1].id@)
    } else {
        critical_ids(out, k - 1)
    }
}

/// The views of a sequence of strings.
pub open spec fn texts(v: Seq<String>) -> Seq<Seq<char>> {
    v.map_values(|s: String| s@)
}

} // verus!
