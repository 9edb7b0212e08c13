//! Laws of the library: properties of every CPM schedule, and what project edits and the
//! settings dialog keep.
use vstd::prelude::*;
use crate::activity::{Activity, ActivityView, Predecessor};
use crate::display::{chart_end, critical_link_of, float_class_of, FloatClass};
use crate::project::{first_with_id, links_without, removed, views};
use crate::app_state::{
    applied_edit, built_from_edit, count_critical, edit_outcome, entered_duration, entered_ids, first_missing, has_activity, link_ids,
    listed_ids, opened_on, schedulable_input, settings_applied, settings_opened, CpmApp,
};
use crate::activity::{CpmResult, RelType};
use crate::input::{all_digits, comma_pieces, digits_value, integer_value, is_digit, is_white, trim_end, trim_start, trimmed};
use crate::text::{decimal, digit_char, digits, joined};
use crate::scheduler::{
    all_known, all_schedulable, closed, drawn_from, group_ready, kept_in, schedulable, schedule_of, unknown_link,
    SchedulerResult,
};
use crate::network::{
    ef_col, es_col, ff_col, first_link, has_successor, is_cpm_schedule, lf_col, ls_col, max0, names, network,
    rules_at, start_term, task_of, tf_col, critical_ids, texts, ids_distinct, has_id, late_term, free_term, crit_col,
};

verus! {

/// In a CPM schedule no activity's latest finish is before its earliest finish: the
/// backward pass never asks an activity to finish before it can.
pub proof fn lemma_late_finish_not_before_early_finish(out: Seq<Activity>, pd: int, k: int)
    requires
        is_cpm_schedule(out, pd),
        0 <= k < out.len(),
    ensures
        lf_col(out)[k] >= ef_col(out)[k],
    decreases out.len() - k,
{
    let net = network(out);
    let es = es_col(out);
    let ef = ef_col(out);
    let ls = ls_col(out);
    let lf = lf_col(out);
    assert(rules_at(out, pd, k));
    if has_successor(net, k) {
        let (m, i) = choose|m: int, i: int| #[trigger] first_link(net, m, i, k) && lf[k] == crate::network::late_term(net, ls, lf, k, m, i);
        assert(names(net, m, i, k));
        assert(k < m);
        lemma_late_finish_not_before_early_finish(out, pd, m);
        assert(rules_at(out, pd, m));
        assert(es[m] >= start_term(net, es, ef, m, i, k));
    } else {
        assert(pd >= ef[k]);
    }
}

/// Total float is exactly latest start less earliest start (the clamp at 0 never acts),
/// and equally latest finish less earliest finish.
pub proof fn lemma_total_float_exact(out: Seq<Activity>, pd: int, k: int)
    requires
        is_cpm_schedule(out, pd),
        0 <= k < out.len(),
    ensures
        tf_col(out)[k] == ls_col(out)[k] - es_col(out)[k],
        tf_col(out)[k] == lf_col(out)[k] - ef_col(out)[k],
        tf_col(out)[k] >= 0,
{
    lemma_late_finish_not_before_early_finish(out, pd, k);
    assert(rules_at(out, pd, k));
}

/// An activity that no other follows has as much free float as total float: both are its
/// latest finish less its earliest finish.
pub proof fn lemma_end_activity_free_float(out: Seq<Activity>, pd: int, k: int)
    requires
        is_cpm_schedule(out, pd),
        0 <= k < out.len(),
        !has_successor(network(out), k),
    ensures
        ff_col(out)[k] == tf_col(out)[k],
        ff_col(out)[k] == lf_col(out)[k] - ef_col(out)[k],
{
    lemma_total_float_exact(out, pd, k);
    assert(rules_at(out, pd, k));
}

/// Free float is never negative and never more than total float.
pub proof fn lemma_free_float_within_total_float(out: Seq<Activity>, pd: int, k: int)
    requires
        is_cpm_schedule(out, pd),
        0 <= k < out.len(),
    ensures
        0 <= ff_col(out)[k] <= tf_col(out)[k],
{
    let net = network(out);
    let es = es_col(out);
    let ef = ef_col(out);
    let ls = ls_col(out);
    let lf = lf_col(out);
    lemma_total_float_exact(out, pd, k);
    assert(rules_at(out, pd, k));
    if has_successor(net, k) {
        let (m, i) = choose|m: int, i: int| #[trigger] first_link(net, m, i, k) && lf[k] == crate::network::late_term(net, ls, lf, k, m, i);
        assert(names(net, m, i, k));
        lemma_total_float_exact(out, pd, m);
        assert(rules_at(out, pd, m));
        assert(ff_col(out)[k] <= max0(crate::network::free_term(net, es, ef, k, m, i)));
    }
}


/// No link that is left names `id`.
proof fn lemma_links_without_drops(preds: Seq<Predecessor>, id: Seq<char>)
    ensures
        forall|i: int|
            0 <= i < links_without(preds, id).len() ==> (#[trigger] links_without(preds, id)[i]).activity_id@ != id,
    decreases preds.len(),
{
    if preds.len() > 0 {
        lemma_links_without_drops(preds.drop_last(), id);
    }
}

/// Links that do not name `id` are all kept.
proof fn lemma_links_without_keeps(preds: Seq<Predecessor>, id: Seq<char>)
    requires
        forall|i: int| 0 <= i < preds.len() ==> (#[trigger] preds[i]).activity_id@ != id,
    ensures
        links_without(preds, id) == preds,
    decreases preds.len(),
{
    if preds.len() > 0 {
        lemma_links_without_keeps(preds.drop_last(), id);
        assert(preds.drop_last().push(preds.last()) =~= preds);
    }
}

proof fn lemma_removed_no_trace(acts: Seq<Activity>, id: Seq<char>, k: int)
    requires
        k <= acts.len(),
    ensures
        forall|j: int| 0 <= j < removed(acts, id, k).len() ==> (#[trigger] removed(acts, id, k)[j]).id != id,
        forall|j: int, i: int|
            0 <= j < removed(acts, id, k).len() && 0 <= i < removed(acts, id, k)[j].predecessors.len()
                ==> (#[trigger] removed(acts, id, k)[j].predecessors[i]).activity_id@ != id,
    decreases k,
{
    if k > 0 {
        lemma_removed_no_trace(acts, id, k - 1);
        lemma_links_without_drops(acts[k - 1].predecessors@, id);
    }
}

/// After an activity is removed, nothing is left of its id: no activity has it, and no
/// predecessor list names it.
pub proof fn lemma_removal_leaves_no_trace(acts: Seq<Activity>, id: Seq<char>)
    ensures
        forall|j: int|
            0 <= j < removed(acts, id, acts.len() as int).len() ==> (#[trigger] removed(acts, id, acts.len() as int)[j]).id
                != id,
        forall|j: int, i: int|
            0 <= j < removed(acts, id, acts.len() as int).len() && 0 <= i < removed(
                acts,
                id,
                acts.len() as int,
            )[j].predecessors.len() ==> (#[trigger] removed(acts, id, acts.len() as int)[j].predecessors[i]).activity_id@
                != id,
{
    lemma_removed_no_trace(acts, id, acts.len() as int);
}

/// Removal looks only at the activities it is given: the first `k` of `acts` and of a
/// longer list that starts with them give the same result.
proof fn lemma_removed_prefix(acts: Seq<Activity>, more: Seq<Activity>, id: Seq<char>, k: int)
    requires
        0 <= k <= acts.len(),
        k <= more.len(),
        forall|j: int| 0 <= j < k ==> acts[j] == more[j],
    ensures
        removed(acts, id, k) == removed(more, id, k),
    decreases k,
{
    if k > 0 {
        lemma_removed_prefix(acts, more, id, k - 1);
    }
}

/// Removing an id that no activity has and no link names keeps every activity as it is.
proof fn lemma_removed_nothing(acts: Seq<Activity>, id: Seq<char>, k: int)
    requires
        0 <= k <= acts.len(),
        forall|j: int| 0 <= j < acts.len() ==> (#[trigger] acts[j]).id@ != id,
        forall|j: int, i: int|
            0 <= j < acts.len() && 0 <= i < acts[j].predecessors@.len() ==> (#[trigger] acts[j].predecessors@[i]).activity_id@
                != id,
    ensures
        removed(acts, id, k) == views(acts.subrange(0, k)),
    decreases k,
{
    if k > 0 {
        lemma_removed_nothing(acts, id, k - 1);
        let a = acts[k - 1];
        assert forall|i: int| 0 <= i < a.predecessors@.len() implies (#[trigger] a.predecessors@[i]).activity_id@ != id by {
            assert(acts[k - 1].predecessors@[i].activity_id@ != id);
        }
        lemma_links_without_keeps(a.predecessors@, id);
        assert((ActivityView { predecessors: links_without(a.predecessors@, id), ..a@ }) == a@);
        assert(views(acts.subrange(0, k)) =~= views(acts.subrange(0, k - 1)).push(a@));
    }
}

/// Adding an activity whose id is new, and then removing that id, gives back the
/// activities as they were, when none of them names the id as a predecessor.
pub proof fn lemma_add_then_remove(acts: Seq<Activity>, a: Activity)
    requires
        forall|j: int| 0 <= j < acts.len() ==> (#[trigger] acts[j]).id@ != a.id@,
        forall|j: int, i: int|
            0 <= j < acts.len() && 0 <= i < acts[j].predecessors@.len() ==> (#[trigger] acts[j].predecessors@[i]).activity_id@
                != a.id@,
    ensures
        removed(acts.push(a), a.id@, acts.len() + 1int) == views(acts),
{
    let n = acts.len() as int;
    lemma_removed_prefix(acts, acts.push(a), a.id@, n);
    lemma_removed_nothing(acts, a.id@, n);
    assert(acts.subrange(0, n) =~= acts);
}


/// Opening the settings dialog and applying it without a change keeps the project's name
/// and start date.
pub proof fn lemma_settings_round_trip(before: CpmApp, opened: CpmApp, applied: CpmApp)
    requires
        settings_opened(before, opened),
        settings_applied(opened, applied),
    ensures
        applied.project.settings.name@ == before.project.settings.name@,
        applied.project.settings.start_date == before.project.settings.start_date,
        applied.project.activities == before.project.activities,
{
}


/// Adding an activity with a new id, whose predecessors all exist, to activities that can
/// be scheduled gives activities that can still be scheduled: the checks of the activity
/// dialog keep a schedulable project schedulable.
pub proof fn lemma_new_activity_keeps_schedulable(acts: Seq<Activity>, a: Activity)
    requires
        schedulable_input(acts),
        forall|j: int| 0 <= j < acts.len() ==> (#[trigger] acts[j]).id@ != a.id@,
        forall|i: int|
            0 <= i < a.predecessors@.len() ==> has_activity(acts, (#[trigger] a.predecessors@[i]).activity_id@),
    ensures
        schedulable_input(acts.push(a)),
{
    let net = network(acts);
    let net2 = network(acts.push(a));
    let n = net.len() as int;
    assert(net2 =~= net.push(task_of(a)));
    assert forall|j: int| 0 <= j < n implies (#[trigger] net[j]).id == acts[j].id@ && net2[j] == net[j] by {}
    assert(net2[n].id == a.id@);
    // every link names an activity
    assert forall|b: int, i: int| !#[trigger] unknown_link(net2, b, i) by {
        if 0 <= b < net2.len() && 0 <= i < net2[b].links.len() {
            if b < n {
                assert(!unknown_link(net, b, i));
                let j = choose|j: int| 0 <= j < net.len() && #[trigger] net[j].id == net[b].links[i].pred;
                assert(net2[j].id == net[j].id);
                assert(has_id(net2, net2[b].links[i].pred));
            } else {
                let p = a.predecessors@[i];
                assert(net2[b].links[i].pred == p.activity_id@);
                assert(has_activity(acts, p.activity_id@));
                let j = choose|j: int| 0 <= j < acts.len() && #[trigger] acts[j].id@ == p.activity_id@;
                assert(net2[j].id == acts[j].id@);
                assert(has_id(net2, net2[b].links[i].pred));
            }
        }
    }
    assert(all_known(net2));
    // no two activities share an id
    assert forall|x: int, y: int| 0 <= x < net2.len() && 0 <= y < net2.len() && x != y implies #[trigger] net2[x].id
        != #[trigger] net2[y].id by {
        if x < n && y < n {
            assert(net[x].id != net[y].id);
        } else if x == n {
            assert(acts[y].id@ != a.id@);
        } else {
            assert(acts[x].id@ != a.id@);
        }
    }
    assert(ids_distinct(net2));
    // every id can be scheduled
    assert forall|j: int| 0 <= j < net2.len() implies schedulable(net2, #[trigger] net2[j].id) by {
        assert forall|t: Set<Seq<char>>| #[trigger] closed(net2, t) implies t.contains(net2[j].id) by {
            assert forall|m: int| 0 <= m < n && #[trigger] group_ready(net, t, net[m].id) implies t.contains(
                net[m].id,
            ) by {
                assert forall|b: int, i: int|
                    0 <= b < net2.len() && net2[b].id == net2[m].id && 0 <= i < net2[b].links.len() implies t.contains(
                    #[trigger] net2[b].links[i].pred,
                ) by {
                    if b == n {
                        assert(acts[m].id@ != a.id@);
                    } else {
                        assert(net[b].links[i].pred == net2[b].links[i].pred);
                    }
                }
                assert(group_ready(net2, t, net2[m].id));
            }
            assert(closed(net, t));
            if j < n {
                assert(schedulable(net, net[j].id));
            } else {
                assert forall|b: int, i: int|
                    0 <= b < net2.len() && net2[b].id == net2[n].id && 0 <= i < net2[b].links.len() implies t.contains(
                    #[trigger] net2[b].links[i].pred,
                ) by {
                    if b < n {
                        assert(acts[b].id@ != a.id@);
                    }
                    let p = a.predecessors@[i];
                    assert(net2[b].links[i].pred == p.activity_id@);
                    assert(has_activity(acts, p.activity_id@));
                    let k = choose|k: int| 0 <= k < acts.len() && #[trigger] acts[k].id@ == p.activity_id@;
                    assert(net[k].id == p.activity_id@);
                    assert(schedulable(net, net[k].id));
                }
                assert(group_ready(net2, t, net2[n].id));
            }
        }
    }
    assert(all_schedulable(net2));
}


/// `o1` and `o2` hold the same tasks, possibly in different orders, and no two tasks of
/// either share an id.
pub open spec fn same_tasks(o1: Seq<Activity>, o2: Seq<Activity>) -> bool {
    &&& o1.len() == o2.len()
    &&& ids_distinct(network(o1))
    &&& ids_distinct(network(o2))
    &&& forall|k1: int| 0 <= k1 < o1.len() ==> #[trigger] has_partner(o1, o2, k1)
    &&& forall|k2: int| 0 <= k2 < o2.len() ==> #[trigger] has_partner(o2, o1, k2)
}

/// Some activity of `o2` describes the task of activity `k1` of `o1`.
pub open spec fn has_partner(o1: Seq<Activity>, o2: Seq<Activity>, k1: int) -> bool {
    exists|k2: int| 0 <= k2 < o2.len() && #[trigger] o2[k2].same_task(o1[k1])
}

/// Activities that describe the same task give the same task of the network.
proof fn lemma_same_task_network(o1: Seq<Activity>, o2: Seq<Activity>, k1: int, k2: int)
    requires
        0 <= k1 < o1.len(),
        0 <= k2 < o2.len(),
        o2[k2].same_task(o1[k1]),
    ensures
        network(o2)[k2] == network(o1)[k1],
        o1[k1].same_task(o2[k2]),
{
    assert(network(o2)[k2].links =~= network(o1)[k1].links);
}

/// The activity of `o2` with the task of activity `k1` of `o1`.
proof fn lemma_partner(o1: Seq<Activity>, o2: Seq<Activity>, k1: int) -> (k2: int)
    requires
        same_tasks(o1, o2),
        0 <= k1 < o1.len(),
    ensures
        0 <= k2 < o2.len(),
        o2[k2].same_task(o1[k1]),
        network(o2)[k2] == network(o1)[k1],
        forall|k3: int| 0 <= k3 < o2.len() && o2[k3].id@ == o1[k1].id@ ==> k3 == k2,
{
    assert(has_partner(o1, o2, k1));
    let k2 = choose|k2: int| 0 <= k2 < o2.len() && #[trigger] o2[k2].same_task(o1[k1]);
    lemma_same_task_network(o1, o2, k1, k2);
    assert forall|k3: int| 0 <= k3 < o2.len() && o2[k3].id@ == o1[k1].id@ implies k3 == k2 by {
        if k3 != k2 {
            assert(network(o2)[k3].id != network(o2)[k2].id);
        }
    }
    k2
}

/// The activity of `o1` with the task of activity `k2` of `o2`.
proof fn lemma_partner_back(o1: Seq<Activity>, o2: Seq<Activity>, k2: int) -> (k1: int)
    requires
        same_tasks(o1, o2),
        0 <= k2 < o2.len(),
    ensures
        0 <= k1 < o1.len(),
        o2[k2].same_task(o1[k1]),
        network(o2)[k2] == network(o1)[k1],
{
    assert(has_partner(o2, o1, k2));
    let k1 = choose|k1: int| 0 <= k1 < o1.len() && #[trigger] o1[k1].same_task(o2[k2]);
    lemma_same_task_network(o2, o1, k2, k1);
    k1
}

/// Earliest dates agree, by induction along `o1`: predecessors come first.
proof fn lemma_early_agree(o1: Seq<Activity>, o2: Seq<Activity>, p1: int, p2: int, k1: int, k2: int)
    requires
        is_cpm_schedule(o1, p1),
        is_cpm_schedule(o2, p2),
        same_tasks(o1, o2),
        0 <= k1 < o1.len(),
        0 <= k2 < o2.len(),
        o2[k2].same_task(o1[k1]),
    ensures
        o2[k2].cpm.es == o1[k1].cpm.es,
        o2[k2].cpm.ef == o1[k1].cpm.ef,
    decreases k1,
{
    let net1 = network(o1);
    let net2 = network(o2);
    let es1 = es_col(o1);
    let ef1 = ef_col(o1);
    let es2 = es_col(o2);
    let ef2 = ef_col(o2);
    lemma_same_task_network(o1, o2, k1, k2);
    assert(rules_at(o1, p1, k1));
    assert(rules_at(o2, p2, k2));
    if es1[k1] != 0 {
        let (i, j1) = choose|i: int, j1: int|
            #[trigger] names(net1, k1, i, j1) && es1[k1] == start_term(net1, es1, ef1, k1, i, j1);
        let j2 = lemma_partner(o1, o2, j1);
        lemma_early_agree(o1, o2, p1, p2, j1, j2);
        assert(names(net2, k2, i, j2));
        assert(start_term(net2, es2, ef2, k2, i, j2) == start_term(net1, es1, ef1, k1, i, j1));
    }
    if es2[k2] != 0 {
        let (i, j2) = choose|i: int, j2: int|
            #[trigger] names(net2, k2, i, j2) && es2[k2] == start_term(net2, es2, ef2, k2, i, j2);
        let j1 = lemma_partner_back(o1, o2, j2);
        assert(names(net1, k1, i, j1));
        lemma_early_agree(o1, o2, p1, p2, j1, j2);
        assert(start_term(net2, es2, ef2, k2, i, j2) == start_term(net1, es1, ef1, k1, i, j1));
    }
}

/// The project durations agree.
proof fn lemma_duration_agrees(o1: Seq<Activity>, o2: Seq<Activity>, p1: int, p2: int)
    requires
        is_cpm_schedule(o1, p1),
        is_cpm_schedule(o2, p2),
        same_tasks(o1, o2),
    ensures
        p1 == p2,
{
    let ef1 = ef_col(o1);
    let ef2 = ef_col(o2);
    let w1 = choose|w: int| 0 <= w < ef1.len() && p1 == #[trigger] ef1[w];
    let v2 = lemma_partner(o1, o2, w1);
    lemma_early_agree(o1, o2, p1, p2, w1, v2);
    assert(p2 >= ef2[v2]);
    let w2 = choose|w: int| 0 <= w < ef2.len() && p2 == #[trigger] ef2[w];
    let v1 = lemma_partner_back(o1, o2, w2);
    lemma_early_agree(o1, o2, p1, p2, v1, w2);
    assert(p1 >= ef1[v1]);
}

/// Latest dates agree, by induction backwards along `o1`: successors come later.
proof fn lemma_late_agree(o1: Seq<Activity>, o2: Seq<Activity>, p1: int, p2: int, k1: int, k2: int)
    requires
        is_cpm_schedule(o1, p1),
        is_cpm_schedule(o2, p2),
        same_tasks(o1, o2),
        p1 == p2,
        0 <= k1 < o1.len(),
        0 <= k2 < o2.len(),
        o2[k2].same_task(o1[k1]),
    ensures
        o2[k2].cpm.ls == o1[k1].cpm.ls,
        o2[k2].cpm.lf == o1[k1].cpm.lf,
    decreases o1.len() - k1,
{
    let net1 = network(o1);
    let net2 = network(o2);
    let ls1 = ls_col(o1);
    let lf1 = lf_col(o1);
    let ls2 = ls_col(o2);
    let lf2 = lf_col(o2);
    lemma_same_task_network(o1, o2, k1, k2);
    assert(rules_at(o1, p1, k1));
    assert(rules_at(o2, p2, k2));
    if has_successor(net1, k1) {
        let (m1, i) = choose|m1: int, i: int|
            #[trigger] first_link(net1, m1, i, k1) && lf1[k1] == late_term(net1, ls1, lf1, k1, m1, i);
        let m2 = lemma_partner(o1, o2, m1);
        assert(names(net1, m1, i, k1));
        assert(first_link(net2, m2, i, k2));
        lemma_late_agree(o1, o2, p1, p2, m1, m2);
        assert(late_term(net2, ls2, lf2, k2, m2, i) == late_term(net1, ls1, lf1, k1, m1, i));
    }
    if has_successor(net2, k2) {
        let (m2, i) = choose|m2: int, i: int|
            #[trigger] first_link(net2, m2, i, k2) && lf2[k2] == late_term(net2, ls2, lf2, k2, m2, i);
        let m1 = lemma_partner_back(o1, o2, m2);
        assert(first_link(net1, m1, i, k1));
        assert(names(net1, m1, i, k1));
        lemma_late_agree(o1, o2, p1, p2, m1, m2);
        assert(late_term(net2, ls2, lf2, k2, m2, i) == late_term(net1, ls1, lf1, k1, m1, i));
    }
}

/// Floats and criticality agree.
proof fn lemma_floats_agree(o1: Seq<Activity>, o2: Seq<Activity>, p1: int, p2: int, k1: int, k2: int)
    requires
        is_cpm_schedule(o1, p1),
        is_cpm_schedule(o2, p2),
        same_tasks(o1, o2),
        p1 == p2,
        0 <= k1 < o1.len(),
        0 <= k2 < o2.len(),
        o2[k2].same_task(o1[k1]),
    ensures
        o2[k2].cpm == o1[k1].cpm,
{
    let net1 = network(o1);
    let net2 = network(o2);
    let es1 = es_col(o1);
    let ef1 = ef_col(o1);
    let es2 = es_col(o2);
    let ef2 = ef_col(o2);
    let ff1 = ff_col(o1);
    let ff2 = ff_col(o2);
    lemma_same_task_network(o1, o2, k1, k2);
    lemma_early_agree(o1, o2, p1, p2, k1, k2);
    lemma_late_agree(o1, o2, p1, p2, k1, k2);
    assert(rules_at(o1, p1, k1));
    assert(rules_at(o2, p2, k2));
    if has_successor(net1, k1) {
        let (m1, i) = choose|m1: int, i: int|
            #[trigger] first_link(net1, m1, i, k1) && ff1[k1] == max0(free_term(net1, es1, ef1, k1, m1, i));
        let m2 = lemma_partner(o1, o2, m1);
        assert(first_link(net2, m2, i, k2));
        lemma_early_agree(o1, o2, p1, p2, m1, m2);
        assert(free_term(net2, es2, ef2, k2, m2, i) == free_term(net1, es1, ef1, k1, m1, i));
    }
    if has_successor(net2, k2) {
        let (m2, i) = choose|m2: int, i: int|
            #[trigger] first_link(net2, m2, i, k2) && ff2[k2] == max0(free_term(net2, es2, ef2, k2, m2, i));
        let m1 = lemma_partner_back(o1, o2, m2);
        assert(first_link(net1, m1, i, k1));
        lemma_early_agree(o1, o2, p1, p2, m1, m2);
        assert(free_term(net2, es2, ef2, k2, m2, i) == free_term(net1, es1, ef1, k1, m1, i));
    }
    assert(crit_col(o1)[k1] == o1[k1].cpm.critical);
    assert(crit_col(o2)[k2] == o2[k2].cpm.critical);
}

/// Two rearrangements of the same activities, without repeated ids, hold the same tasks.
proof fn lemma_results_same_tasks(input: Seq<Activity>, o1: Seq<Activity>, o2: Seq<Activity>)
    requires
        o1.len() == input.len(),
        o2.len() == input.len(),
        ids_distinct(network(o1)),
        ids_distinct(network(o2)),
        forall|k: int| 0 <= k < o1.len() ==> #[trigger] drawn_from(o1, input, k),
        forall|j: int| 0 <= j < input.len() ==> #[trigger] kept_in(o1, input, j),
        forall|k: int| 0 <= k < o2.len() ==> #[trigger] drawn_from(o2, input, k),
        forall|j: int| 0 <= j < input.len() ==> #[trigger] kept_in(o2, input, j),
    ensures
        same_tasks(o1, o2),
{
    assert forall|k1: int| 0 <= k1 < o1.len() implies #[trigger] has_partner(o1, o2, k1) by {
        assert(drawn_from(o1, input, k1));
        let j = choose|j: int| 0 <= j < input.len() && #[trigger] o1[k1].same_task(input[j]);
        assert(kept_in(o2, input, j));
        let k2 = choose|k2: int| 0 <= k2 < o2.len() && #[trigger] o2[k2].same_task(input[j]);
        assert(o2[k2].same_task(o1[k1]));
    }
    assert forall|k2: int| 0 <= k2 < o2.len() implies #[trigger] has_partner(o2, o1, k2) by {
        assert(drawn_from(o2, input, k2));
        let j = choose|j: int| 0 <= j < input.len() && #[trigger] o2[k2].same_task(input[j]);
        assert(kept_in(o1, input, j));
        let k1 = choose|k1: int| 0 <= k1 < o1.len() && #[trigger] o1[k1].same_task(input[j]);
        assert(o1[k1].same_task(o2[k2]));
    }
}

/// Two schedules of the same activities agree: whatever precedence order each lists the
/// activities in, every activity gets the same dates, floats and criticality, and the
/// project duration is the same. Scheduling twice gives the same results, and results
/// already held by the activities play no part.
pub proof fn lemma_schedules_agree(input: Seq<Activity>, r1: SchedulerResult, r2: SchedulerResult)
    requires
        schedule_of(input, r1),
        schedule_of(input, r2),
    ensures
        r1.project_duration == r2.project_duration,
        forall|k1: int, k2: int|
            #![trigger r1.activities@[k1], r2.activities@[k2]]
            0 <= k1 < r1.activities@.len() && 0 <= k2 < r2.activities@.len() && r1.activities@[k1].id@
                == r2.activities@[k2].id@ ==> r1.activities@[k1].cpm == r2.activities@[k2].cpm,
{
    let o1 = r1.activities@;
    let o2 = r2.activities@;
    lemma_results_same_tasks(input, o1, o2);
    let p1 = r1.project_duration as int;
    let p2 = r2.project_duration as int;
    lemma_duration_agrees(o1, o2, p1, p2);
    assert forall|k1: int, k2: int|
        #![trigger o1[k1], o2[k2]]
        0 <= k1 < o1.len() && 0 <= k2 < o2.len() && o1[k1].id@ == o2[k2].id@ implies o1[k1].cpm == o2[k2].cpm by {
        let k3 = lemma_partner(o1, o2, k1);
        assert(k3 == k2);
        lemma_floats_agree(o1, o2, p1, p2, k1, k2);
    }
}


/// Activity `a` with its links to `id` taken out, as removal leaves it.
pub open spec fn stripped(a: Activity, id: Seq<char>) -> ActivityView {
    ActivityView { predecessors: links_without(a.predecessors@, id), ..a@ }
}

/// Every link that is left is one of the links, and every link that does not name `id` is left.
proof fn lemma_links_without_members(preds: Seq<Predecessor>, id: Seq<char>)
    ensures
        forall|i: int|
            0 <= i < links_without(preds, id).len() ==> exists|i2: int|
                0 <= i2 < preds.len() && preds[i2] == #[trigger] links_without(preds, id)[i],
        forall|i2: int|
            0 <= i2 < preds.len() && (#[trigger] preds[i2]).activity_id@ != id ==> exists|i: int|
                0 <= i < links_without(preds, id).len() && links_without(preds, id)[i] == preds[i2],
    decreases preds.len(),
{
    if preds.len() > 0 {
        let init = preds.drop_last();
        lemma_links_without_members(init, id);
        let lw = links_without(preds, id);
        let lw0 = links_without(init, id);
        assert forall|i: int| 0 <= i < lw.len() implies exists|i2: int|
            0 <= i2 < preds.len() && preds[i2] == #[trigger] lw[i] by {
            if i < lw0.len() {
                assert(lw[i] == lw0[i]);
                let i2 = choose|i2: int| 0 <= i2 < init.len() && init[i2] == #[trigger] lw0[i];
                assert(preds[i2] == init[i2]);
            } else {
                assert(lw[i] == preds.last());
                assert(preds[preds.len() - 1] == lw[i]);
            }
        }
        assert forall|i2: int| 0 <= i2 < preds.len() && (#[trigger] preds[i2]).activity_id@ != id implies exists|i: int|
            0 <= i < lw.len() && lw[i] == preds[i2] by {
            if i2 < init.len() {
                assert(init[i2] == preds[i2]);
                let i = choose|i: int| 0 <= i < lw0.len() && lw0[i] == init[i2];
                assert(lw[i] == lw0[i]);
            } else {
                assert(lw[lw.len() - 1] == preds.last());
            }
        }
    }
}

/// Each activity that removal leaves is one of the activities, without its links to `id`.
proof fn lemma_removed_from(acts: Seq<Activity>, id: Seq<char>, m: int)
    requires
        0 <= m <= acts.len(),
    ensures
        forall|k: int|
            0 <= k < removed(acts, id, m).len() ==> exists|j: int|
                0 <= j < m && acts[j].id@ != id && #[trigger] removed(acts, id, m)[k] == stripped(acts[j], id),
    decreases m,
{
    if m > 0 {
        lemma_removed_from(acts, id, m - 1);
        let r0 = removed(acts, id, m - 1);
        let r = removed(acts, id, m);
        assert forall|k: int| 0 <= k < r.len() implies exists|j: int|
            0 <= j < m && acts[j].id@ != id && #[trigger] r[k] == stripped(acts[j], id) by {
            if k < r0.len() {
                assert(r[k] == r0[k]);
                let j = choose|j: int| 0 <= j < m - 1 && acts[j].id@ != id && #[trigger] r0[k] == stripped(acts[j], id);
            } else {
                assert(r[k] == stripped(acts[m - 1], id));
            }
        }
    }
}

/// Each activity whose id is not `id` is left by removal, without its links to `id`.
proof fn lemma_removed_keeps(acts: Seq<Activity>, id: Seq<char>, m: int)
    requires
        0 <= m <= acts.len(),
    ensures
        forall|j: int|
            0 <= j < m && (#[trigger] acts[j]).id@ != id ==> exists|k: int|
                0 <= k < removed(acts, id, m).len() && removed(acts, id, m)[k] == stripped(acts[j], id),
    decreases m,
{
    if m > 0 {
        lemma_removed_keeps(acts, id, m - 1);
        let r0 = removed(acts, id, m - 1);
        let r = removed(acts, id, m);
        assert forall|j: int| 0 <= j < m && (#[trigger] acts[j]).id@ != id implies exists|k: int|
            0 <= k < r.len() && r[k] == stripped(acts[j], id) by {
            if j < m - 1 {
                let k = choose|k: int| 0 <= k < r0.len() && r0[k] == stripped(acts[j], id);
                assert(r[k] == r0[k]);
            } else {
                assert(r[r.len() - 1] == stripped(acts[m - 1], id));
            }
        }
    }
}

/// Removal leaves no two activities with one id when there were none.
proof fn lemma_removed_distinct(acts: Seq<Activity>, id: Seq<char>, m: int)
    requires
        0 <= m <= acts.len(),
        ids_distinct(network(acts)),
    ensures
        forall|k1: int, k2: int|
            0 <= k1 < removed(acts, id, m).len() && 0 <= k2 < removed(acts, id, m).len() && k1 != k2
                ==> #[trigger] removed(acts, id, m)[k1].id != #[trigger] removed(acts, id, m)[k2].id,
    decreases m,
{
    if m > 0 {
        lemma_removed_distinct(acts, id, m - 1);
        lemma_removed_from(acts, id, m - 1);
        let r0 = removed(acts, id, m - 1);
        let r = removed(acts, id, m);
        if acts[m - 1].id@ != id {
            assert forall|k: int| 0 <= k < r0.len() implies #[trigger] r0[k].id != acts[m - 1].id@ by {
                let j = choose|j: int| 0 <= j < m - 1 && acts[j].id@ != id && #[trigger] r0[k] == stripped(acts[j], id);
                assert(network(acts)[j].id != network(acts)[m - 1].id);
            }
            assert forall|k1: int, k2: int| 0 <= k1 < r.len() && 0 <= k2 < r.len() && k1 != k2 implies #[trigger] r[k1].id
                != #[trigger] r[k2].id by {
                if k1 < r0.len() {
                    assert(r[k1] == r0[k1]);
                }
                if k2 < r0.len() {
                    assert(r[k2] == r0[k2]);
                }
            }
        }
    }
}

/// The activity that task `k` of the remaining network comes from.
proof fn lemma_rest_source(acts: Seq<Activity>, id: Seq<char>, rest: Seq<Activity>, k: int) -> (j: int)
    requires
        views(rest) == removed(acts, id, acts.len() as int),
        0 <= k < rest.len(),
    ensures
        0 <= j < acts.len(),
        acts[j].id@ != id,
        network(rest)[k].id == network(acts)[j].id,
        network(rest)[k].links == links_without(acts[j].predecessors@, id).map_values(
            |p: Predecessor| crate::network::link_of(p),
        ),
{
    let r = removed(acts, id, acts.len() as int);
    lemma_removed_from(acts, id, acts.len() as int);
    assert(views(rest)[k] == rest[k]@);
    let j = choose|j: int| 0 <= j < acts.len() && acts[j].id@ != id && #[trigger] r[k] == stripped(acts[j], id);
    assert(network(rest)[k].links =~= links_without(acts[j].predecessors@, id).map_values(
        |p: Predecessor| crate::network::link_of(p),
    ));
    j
}

/// The task of the remaining network that activity `j` becomes.
proof fn lemma_rest_image(acts: Seq<Activity>, id: Seq<char>, rest: Seq<Activity>, j: int) -> (k: int)
    requires
        views(rest) == removed(acts, id, acts.len() as int),
        0 <= j < acts.len(),
        acts[j].id@ != id,
    ensures
        0 <= k < rest.len(),
        network(rest)[k].id == network(acts)[j].id,
{
    let r = removed(acts, id, acts.len() as int);
    lemma_removed_keeps(acts, id, acts.len() as int);
    let k = choose|k: int| 0 <= k < r.len() && r[k] == stripped(acts[j], id);
    assert(views(rest)[k] == rest[k]@);
    k
}

/// Link `i` of remaining task `k`, which comes from activity `j`, is one of the links of
/// `j`, and does not name `id`.
proof fn lemma_rest_link(acts: Seq<Activity>, id: Seq<char>, rest: Seq<Activity>, k: int, j: int, i: int) -> (i2: int)
    requires
        0 <= k < rest.len(),
        0 <= j < acts.len(),
        network(rest)[k].links == links_without(acts[j].predecessors@, id).map_values(
            |p: Predecessor| crate::network::link_of(p),
        ),
        0 <= i < network(rest)[k].links.len(),
    ensures
        0 <= i2 < network(acts)[j].links.len(),
        network(acts)[j].links[i2].pred == network(rest)[k].links[i].pred,
        network(rest)[k].links[i].pred != id,
{
    let preds = acts[j].predecessors@;
    lemma_links_without_members(preds, id);
    lemma_links_without_drops(preds, id);
    let lw = links_without(preds, id);
    let i2 = choose|i2: int| 0 <= i2 < preds.len() && preds[i2] == #[trigger] lw[i];
    i2
}

/// Removing an activity, with every link to it, from activities that can be scheduled
/// leaves activities that can still be scheduled, unless none is left.
pub proof fn lemma_removal_keeps_schedulable(acts: Seq<Activity>, id: Seq<char>, rest: Seq<Activity>)
    requires
        schedulable_input(acts),
        views(rest) == removed(acts, id, acts.len() as int),
        rest.len() > 0,
    ensures
        schedulable_input(rest),
{
    let n = acts.len() as int;
    let r = removed(acts, id, n);
    let net = network(acts);
    let net2 = network(rest);
    assert(rest.len() == r.len());
    lemma_removed_distinct(acts, id, n);
    assert forall|k1: int, k2: int| 0 <= k1 < net2.len() && 0 <= k2 < net2.len() && k1 != k2 implies #[trigger] net2[k1].id
        != #[trigger] net2[k2].id by {
        assert(views(rest)[k1] == rest[k1]@);
        assert(views(rest)[k2] == rest[k2]@);
        assert(r[k1].id != r[k2].id);
    }
    assert(ids_distinct(net2));
    assert forall|b: int, i: int| !#[trigger] unknown_link(net2, b, i) by {
        if 0 <= b < net2.len() && 0 <= i < net2[b].links.len() {
            let j = lemma_rest_source(acts, id, rest, b);
            let i2 = lemma_rest_link(acts, id, rest, b, j, i);
            let x = net2[b].links[i].pred;
            assert(!unknown_link(net, j, i2));
            let j2 = choose|j2: int| 0 <= j2 < net.len() && #[trigger] net[j2].id == x;
            let k2 = lemma_rest_image(acts, id, rest, j2);
            assert(has_id(net2, x));
        }
    }
    assert(all_known(net2));
    assert forall|k: int| 0 <= k < net2.len() implies schedulable(net2, #[trigger] net2[k].id) by {
        let j = lemma_rest_source(acts, id, rest, k);
        assert(schedulable(net, net[j].id));
        assert forall|t: Set<Seq<char>>| #[trigger] closed(net2, t) implies t.contains(net2[k].id) by {
            let t2 = t.insert(id);
            assert forall|j2: int| 0 <= j2 < net.len() && #[trigger] group_ready(net, t2, net[j2].id) implies t2.contains(
                net[j2].id,
            ) by {
                if net[j2].id != id {
                    let k2 = lemma_rest_image(acts, id, rest, j2);
                    let j3 = lemma_rest_source(acts, id, rest, k2);
                    assert(j3 == j2) by {
                        if j3 != j2 {
                            assert(net[j3].id != net[j2].id);
                        }
                    }
                    assert forall|b: int, i: int|
                        0 <= b < net2.len() && net2[b].id == net2[k2].id && 0 <= i < net2[b].links.len() implies t.contains(
                        #[trigger] net2[b].links[i].pred,
                    ) by {
                        assert(b == k2);
                        let i2 = lemma_rest_link(acts, id, rest, k2, j2, i);
                        assert(t2.contains(net[j2].links[i2].pred));
                    }
                    assert(group_ready(net2, t, net2[k2].id));
                }
            }
            assert(closed(net, t2));
        }
    }
    assert(all_schedulable(net2));
}


proof fn lemma_digit_char(k: nat)
    requires
        k < 10,
    ensures
        is_digit(digit_char(k)),
        (digit_char(k) as u32) - 0x30 == k,
{
}

/// The decimal digits of `n` are digits, and read back as `n`.
proof fn lemma_digits_read_back(n: nat)
    ensures
        all_digits(digits(n)),
        digits_value(digits(n)) == n,
    decreases n,
{
    if n < 10 {
        lemma_digit_char(n);
        let d = digits(n);
        assert(d == seq![digit_char(n)]);
        assert(d.drop_last() =~= Seq::<char>::empty());
        assert(digits_value(d.drop_last()) == 0);
        assert(d.last() == digit_char(n));
        assert(forall|i: int| 0 <= i < d.len() ==> d[i] == digit_char(n));
    } else {
        lemma_digits_read_back(n / 10);
        lemma_digit_char(n % 10);
        let d = digits(n);
        assert(d == digits(n / 10).push(digit_char(n % 10)));
        assert(d.drop_last() =~= digits(n / 10));
        assert(d.last() == digit_char(n % 10));
        vstd::arithmetic::div_mod::lemma_fundamental_div_mod(n as int, 10);
        assert(digits_value(d) == digits_value(d.drop_last()) * 10 + ((d.last() as u32) - 0x30));
        assert forall|i: int| 0 <= i < d.len() implies is_digit(#[trigger] d[i]) by {
            if i < d.len() - 1 {
                assert(d[i] == digits(n / 10)[i]);
            }
        }
    }
}

/// A positive whole number written in decimal is what the duration field reads.
proof fn lemma_duration_read_back(d: int)
    requires
        0 < d <= i32::MAX,
    ensures
        trimmed(decimal(d)) == decimal(d),
        integer_value(decimal(d)) == Some(d),
{
    let s = decimal(d);
    lemma_digits_read_back(d as nat);
    assert(is_digit(s[0]));
    assert(is_digit(s[s.len() - 1]));
    assert(!is_white(s[0]));
    assert(!is_white(s.last()));
    assert(trim_start(s) == s);
    assert(trim_end(s) == s);
}

/// Text without commas is one piece.
proof fn lemma_pieces_of_plain(t: Seq<char>)
    requires
        !t.contains(','),
    ensures
        comma_pieces(t) == seq![t],
    decreases t.len(),
{
    if t.len() > 0 {
        assert(!t.drop_last().contains(',')) by {
            if t.drop_last().contains(',') {
                let i = choose|i: int| 0 <= i < t.drop_last().len() && t.drop_last()[i] == ',';
                assert(t[i] == ',');
            }
        }
        lemma_pieces_of_plain(t.drop_last());
        assert(t.last() != ',') by {
            assert(t[t.len() - 1] == t.last());
        }
        assert(t.drop_last().push(t.last()) =~= t);
        let rest = comma_pieces(t.drop_last());
        assert(rest == seq![t.drop_last()]);
        assert(comma_pieces(t) == rest.update(0, t.drop_last().push(t.last())));
        assert(comma_pieces(t) =~= seq![t]);
    } else {
        assert(t =~= Seq::<char>::empty());
    }
}

/// A comma followed by text without commas adds one piece.
proof fn lemma_pieces_after_comma(s: Seq<char>, t: Seq<char>)
    requires
        !t.contains(','),
    ensures
        comma_pieces(s + seq![','] + t) == comma_pieces(s).push(t),
    decreases t.len(),
{
    if t.len() == 0 {
        let w = s + seq![','];
        assert(w.drop_last() =~= s);
        assert(s + seq![','] + t =~= w);
        assert(w.last() == ',');
        assert(t =~= Seq::<char>::empty());
        assert(comma_pieces(w) == comma_pieces(s).push(Seq::<char>::empty()));
    } else {
        let t0 = t.drop_last();
        assert(!t0.contains(',')) by {
            if t0.contains(',') {
                let i = choose|i: int| 0 <= i < t0.len() && t0[i] == ',';
                assert(t[i] == ',');
            }
        }
        lemma_pieces_after_comma(s, t0);
        let w = s + seq![','] + t;
        assert(w.drop_last() =~= s + seq![','] + t0);
        assert(w.last() == t.last());
        assert(t.last() != ',') by {
            assert(t[t.len() - 1] == t.last());
        }
        assert(t0.push(t.last()) =~= t);
        let rest = comma_pieces(s).push(t0);
        assert(comma_pieces(w) == rest.update(rest.len() - 1, rest.last().push(w.last())));
        assert(rest.update(rest.len() - 1, rest.last().push(w.last())) =~= comma_pieces(s).push(t));
    }
}

/// An id with no comma and no white space at either end, that is not empty.
pub open spec fn plain_id(id: Seq<char>) -> bool {
    &&& id.len() > 0
    &&& !id.contains(',')
    &&& !is_white(id[0])
    &&& !is_white(id.last())
}

/// Ids joined with ", " are read back, in order, as the ids typed in the dialog.
proof fn lemma_ids_read_back(ids: Seq<Seq<char>>)
    requires
        forall|k: int| 0 <= k < ids.len() ==> plain_id(#[trigger] ids[k]),
    ensures
        listed_ids(comma_pieces(joined(ids, ", "@))) == ids,
    decreases ids.len(),
{
    reveal_strlit(", ");
    assert(", "@ == seq![',', ' ']);
    if ids.len() == 0 {
        assert(comma_pieces(Seq::<char>::empty()) =~= seq![Seq::<char>::empty()]);
        let p = seq![Seq::<char>::empty()];
        assert(p.drop_last() =~= Seq::<Seq<char>>::empty());
        assert(trimmed(p.last()).len() == 0);
        assert(joined(ids, ", "@) == Seq::<char>::empty());
        assert(listed_ids(p) == listed_ids(p.drop_last()));
        assert(listed_ids(p.drop_last()) == Seq::<Seq<char>>::empty());
        assert(ids =~= Seq::<Seq<char>>::empty());
    } else if ids.len() == 1 {
        let id = ids[0];
        assert(plain_id(ids[0]));
        lemma_pieces_of_plain(id);
        assert(trim_start(id) == id);
        assert(trim_end(id) == id);
        let p = seq![id];
        assert(p.drop_last() =~= Seq::<Seq<char>>::empty());
        assert(listed_ids(p.drop_last()) == Seq::<Seq<char>>::empty());
        assert(p.last() == id);
        assert(trimmed(id) == id);
        assert(listed_ids(p) == Seq::<Seq<char>>::empty().push(id));
        assert(listed_ids(p) =~= seq![id]);
        assert(ids =~= seq![id]);
        assert(joined(ids, ", "@) == id);
    } else {
        let init = ids.drop_last();
        let id = ids.last();
        assert(plain_id(ids[ids.len() - 1]));
        assert forall|k: int| 0 <= k < init.len() implies plain_id(#[trigger] init[k]) by {
            assert(plain_id(ids[k]));
        }
        lemma_ids_read_back(init);
        let t = seq![' '] + id;
        assert(!t.contains(',')) by {
            if t.contains(',') {
                let i = choose|i: int| 0 <= i < t.len() && t[i] == ',';
                assert(id[i - 1] == ',');
            }
        }
        let j0 = joined(init, ", "@);
        assert(joined(ids, ", "@) =~= j0 + seq![','] + t);
        lemma_pieces_after_comma(j0, t);
        let p = comma_pieces(j0).push(t);
        assert(p.drop_last() =~= comma_pieces(j0));
        assert(t.drop_first() =~= id);
        assert(is_white(t[0]));
        assert(trim_start(t) == trim_start(id));
        assert(trim_start(id) == id);
        assert(trim_end(id) == id);
        assert(listed_ids(p) == init.push(id));
        assert(init.push(id) =~= ids);
        assert(comma_pieces(joined(ids, ", "@)) == p);
    }
}

/// Ids joined with "," (no space) are read back, in order, as the ids typed in the dialog.
proof fn lemma_ids_read_back_tight(ids: Seq<Seq<char>>)
    requires
        forall|k: int| 0 <= k < ids.len() ==> plain_id(#[trigger] ids[k]),
    ensures
        listed_ids(comma_pieces(joined(ids, ","@))) == ids,
    decreases ids.len(),
{
    reveal_strlit(",");
    assert(","@ == seq![',']);
    if ids.len() == 0 {
        assert(comma_pieces(Seq::<char>::empty()) =~= seq![Seq::<char>::empty()]);
        let p = seq![Seq::<char>::empty()];
        assert(p.drop_last() =~= Seq::<Seq<char>>::empty());
        assert(trimmed(p.last()).len() == 0);
        assert(joined(ids, ","@) == Seq::<char>::empty());
        assert(listed_ids(p) == listed_ids(p.drop_last()));
        assert(listed_ids(p.drop_last()) == Seq::<Seq<char>>::empty());
        assert(ids =~= Seq::<Seq<char>>::empty());
    } else if ids.len() == 1 {
        let id = ids[0];
        assert(plain_id(ids[0]));
        lemma_pieces_of_plain(id);
        assert(trim_start(id) == id);
        assert(trim_end(id) == id);
        let p = seq![id];
        assert(p.drop_last() =~= Seq::<Seq<char>>::empty());
        assert(listed_ids(p.drop_last()) == Seq::<Seq<char>>::empty());
        assert(p.last() == id);
        assert(trimmed(id) == id);
        assert(listed_ids(p) == Seq::<Seq<char>>::empty().push(id));
        assert(listed_ids(p) =~= seq![id]);
        assert(ids =~= seq![id]);
        assert(joined(ids, ","@) == id);
    } else {
        let init = ids.drop_last();
        let id = ids.last();
        assert(plain_id(ids[ids.len() - 1]));
        assert forall|k: int| 0 <= k < init.len() implies plain_id(#[trigger] init[k]) by {
            assert(plain_id(ids[k]));
        }
        lemma_ids_read_back_tight(init);
        let t = id;
        assert(!t.contains(',')) by {
            if t.contains(',') {
                let i = choose|i: int| 0 <= i < t.len() && t[i] == ',';
                assert(id[i] == ',');
            }
        }
        let j0 = joined(init, ","@);
        assert(joined(ids, ","@) =~= j0 + seq![','] + t);
        lemma_pieces_after_comma(j0, t);
        let p = comma_pieces(j0).push(t);
        assert(p.drop_last() =~= comma_pieces(j0));
        assert(trim_start(id) == id);
        assert(trim_end(id) == id);
        assert(listed_ids(p) == init.push(id));
        assert(init.push(id) =~= ids);
        assert(comma_pieces(joined(ids, ","@)) == p);
    }
}

/// The activity at position `i` is the first with its id when no other activity has it.
proof fn lemma_unique_is_first(acts: Seq<Activity>, i: int)
    requires
        0 <= i < acts.len(),
        forall|j: int| 0 <= j < acts.len() && j != i ==> (#[trigger] acts[j]).id@ != acts[i].id@,
    ensures
        first_with_id(acts, acts[i].id@) == Some(i),
{
    let id = acts[i].id@;
    assert(acts[i].id@ == id);
    let w = choose|w: int| 0 <= w < acts.len() && #[trigger] acts[w].id@ == id && forall|i2: int| 0 <= i2 < w ==> acts[i2].id@ != id;
    assert(w == i);
}

/// Opening the activity dialog on an activity and saving it without a change gives back
/// the activity (with its results cleared) and leaves the others as they were, when the
/// activity is one the dialog could have saved: a unique id, a positive duration, a name
/// and resource without white space at either end, no WBS code, and Finish-to-Start links
/// without lag to existing activities whose ids hold no comma and no white space at either end.
pub proof fn lemma_edit_round_trip(before: CpmApp, after: CpmApp, i: int)
    requires
        0 <= i < before.project.activities@.len(),
        forall|j: int|
            0 <= j < before.project.activities@.len() && j != i ==> (#[trigger] before.project.activities@[j]).id@
                != before.project.activities@[i].id@,
        opened_on(before.edit, before.project.activities@[i]),
        before.project.activities@[i].duration > 0,
        before.project.activities@[i].name@.len() > 0,
        trimmed(before.project.activities@[i].name@) == before.project.activities@[i].name@,
        trimmed(before.project.activities@[i].resource@) == before.project.activities@[i].resource@,
        before.project.activities@[i].wbs@.len() == 0,
        forall|k: int|
            0 <= k < before.project.activities@[i].predecessors@.len() ==> {
                let p = #[trigger] before.project.activities@[i].predecessors@[k];
                &&& p.rel_type == RelType::FS
                &&& p.lag == 0
                &&& plain_id(p.activity_id@)
                &&& has_activity(before.project.activities@, p.activity_id@)
            },
        edit_outcome(before, after),
    ensures
        after.edit.error is None,
        !after.edit.open,
        after.project.activities@.len() == before.project.activities@.len(),
        forall|j: int|
            0 <= j < before.project.activities@.len() && j != i ==> #[trigger] after.project.activities@[j]
                == before.project.activities@[j],
        ({
            let a = after.project.activities@[i];
            let b = before.project.activities@[i];
            &&& a.id@ == b.id@
            &&& a.name@ == b.name@
            &&& a.duration == b.duration
            &&& a.predecessors@.len() == b.predecessors@.len()
            &&& forall|k: int|
                0 <= k < a.predecessors@.len() ==> (#[trigger] a.predecessors@[k]).activity_id@
                    == b.predecessors@[k].activity_id@ && a.predecessors@[k].rel_type == b.predecessors@[k].rel_type
                    && a.predecessors@[k].lag == b.predecessors@[k].lag
            &&& a.resource@ == b.resource@
            &&& a.wbs@ == b.wbs@
            &&& a.cpm == CpmResult::blank()
        }),
{
    let acts = before.project.activities@;
    let b = acts[i];
    let e = before.edit;
    lemma_duration_read_back(b.duration as int);
    assert(entered_duration(e) == Some(b.duration as int));
    let ids = link_ids(b.predecessors@);
    assert forall|k: int| 0 <= k < ids.len() implies plain_id(#[trigger] ids[k]) by {
        assert(ids[k] == b.predecessors@[k].activity_id@);
    }
    lemma_ids_read_back(ids);
    assert(entered_ids(e) == ids);
    assert forall|k: int| 0 <= k < ids.len() implies has_activity(acts, #[trigger] ids[k]) by {
        assert(ids[k] == b.predecessors@[k].activity_id@);
    }
    assert(first_missing(acts, ids) is None);
    lemma_unique_is_first(acts, i);
    let a = choose|a: Activity| built_from_edit(a, e, entered_duration(e)->0) && #[trigger] applied_edit(before, after, a);
    assert(a.id@ == b.id@);
    assert(after.project.activities@ == acts.update(i, a));
    assert forall|k: int| 0 <= k < a.predecessors@.len() implies (#[trigger] a.predecessors@[k]).activity_id@
        == b.predecessors@[k].activity_id@ && a.predecessors@[k].rel_type == b.predecessors@[k].rel_type
        && a.predecessors@[k].lag == b.predecessors@[k].lag by {
        assert(link_ids(a.predecessors@)[k] == a.predecessors@[k].activity_id@);
        assert(ids[k] == b.predecessors@[k].activity_id@);
    }
}


/// Removing an activity keeps every remaining link pointing at a known activity, whatever
/// the activities were: when every link named an activity before, every link that is left
/// names an activity that is left. No activity left has the removed id, and no link names it.
pub proof fn lemma_removal_keeps_links_known(acts: Seq<Activity>, id: Seq<char>, rest: Seq<Activity>)
    requires
        all_known(network(acts)),
        views(rest) == removed(acts, id, acts.len() as int),
    ensures
        all_known(network(rest)),
        forall|k: int| 0 <= k < rest.len() ==> (#[trigger] rest[k]).id@ != id,
        forall|k: int, i: int|
            0 <= k < rest.len() && 0 <= i < rest[k].predecessors@.len() ==> (#[trigger] rest[k].predecessors@[i]).activity_id@
                != id,
{
    let net = network(acts);
    let net2 = network(rest);
    let r = removed(acts, id, acts.len() as int);
    assert(rest.len() == r.len());
    lemma_removal_leaves_no_trace(acts, id);
    assert forall|k: int| 0 <= k < rest.len() implies (#[trigger] rest[k]).id@ != id by {
        assert(views(rest)[k] == rest[k]@);
        assert(r[k].id != id);
    }
    assert forall|k: int, i: int|
        0 <= k < rest.len() && 0 <= i < rest[k].predecessors@.len() implies (#[trigger] rest[k].predecessors@[i]).activity_id@
        != id by {
        assert(views(rest)[k] == rest[k]@);
        assert(r[k].predecessors[i].activity_id@ != id);
    }
    assert forall|b: int, i: int| !#[trigger] unknown_link(net2, b, i) by {
        if 0 <= b < net2.len() && 0 <= i < net2[b].links.len() {
            let j = lemma_rest_source(acts, id, rest, b);
            let i2 = lemma_rest_link(acts, id, rest, b, j, i);
            let x = net2[b].links[i].pred;
            assert(!unknown_link(net, j, i2));
            let j2 = choose|j2: int| 0 <= j2 < net.len() && #[trigger] net[j2].id == x;
            let k2 = lemma_rest_image(acts, id, rest, j2);
            assert(has_id(net2, x));
        }
    }
}


/// The predecessor ids typed in the activity dialog are the comma-separated entries, in
/// order, whether or not a space follows each comma: ids without commas and without white
/// space at either end, typed as "A,B" or as "A, B", are read as exactly those ids.
pub proof fn lemma_typed_ids_read(e: crate::app_state::EditState, ids: Seq<Seq<char>>)
    requires
        forall|k: int| 0 <= k < ids.len() ==> plain_id(#[trigger] ids[k]),
    ensures
        e.predecessors@ == joined(ids, ","@) ==> entered_ids(e) == ids,
        e.predecessors@ == joined(ids, ", "@) ==> entered_ids(e) == ids,
{
    lemma_ids_read_back_tight(ids);
    lemma_ids_read_back(ids);
}

/// How the schedule table classes an activity's float, stated on the float itself: nothing
/// when not scheduled, critical when flagged critical, near-critical with under five days of
/// total float, and with float otherwise.
pub proof fn lemma_float_classes(scheduled: bool, c: CpmResult)
    ensures
        !scheduled ==> float_class_of(scheduled, c) == FloatClass::Unscheduled,
        scheduled && c.critical ==> float_class_of(scheduled, c) == FloatClass::Critical,
        scheduled && !c.critical && c.tf < 5 ==> float_class_of(scheduled, c) == FloatClass::NearCritical,
        scheduled && !c.critical && c.tf >= 5 ==> float_class_of(scheduled, c) == FloatClass::HasFloat,
{
}

/// The Gantt chart's last day is at least day 1 and at least every earliest finish, and it
/// is day 1 or one of the earliest finishes: it is the largest of them, or 1.
pub proof fn lemma_chart_end_is_largest_finish(acts: Seq<Activity>, k: int)
    requires
        0 <= k <= acts.len(),
    ensures
        chart_end(acts, k) >= 1,
        forall|j: int| 0 <= j < k ==> chart_end(acts, k) >= #[trigger] acts[j].cpm.ef,
        chart_end(acts, k) == 1 || exists|j: int| 0 <= j < k && chart_end(acts, k) == #[trigger] acts[j].cpm.ef,
    decreases k,
{
    if k > 0 {
        lemma_chart_end_is_largest_finish(acts, k - 1);
        if chart_end(acts, k) != 1 && chart_end(acts, k) != acts[k - 1].cpm.ef {
            let j = choose|j: int| 0 <= j < k - 1 && chart_end(acts, k - 1) == #[trigger] acts[j].cpm.ef;
            assert(chart_end(acts, k) == acts[j].cpm.ef);
        }
    }
}

/// The number of critical activities among the first `k` is the number of critical ids.
pub proof fn lemma_count_is_critical_ids(acts: Seq<Activity>, k: int)
    requires
        0 <= k <= acts.len(),
    ensures
        count_critical(acts, k) == critical_ids(acts, k).len(),
    decreases k,
{
    if k > 0 {
        lemma_count_is_critical_ids(acts, k - 1);
    }
}

/// The critical count of a schedule is the length of its critical path: the activities
/// whose critical flag is set.
pub proof fn lemma_critical_count_is_path_length(input: Seq<Activity>, res: SchedulerResult)
    requires
        schedule_of(input, res),
    ensures
        count_critical(res.activities@, res.activities@.len() as int) == res.critical_path@.len(),
{
    lemma_count_is_critical_ids(res.activities@, res.activities@.len() as int);
    assert(texts(res.critical_path@).len() == res.critical_path@.len());
}

/// Activity `j` is the first of `acts` whose id is `x`.
pub open spec fn first_having(acts: Seq<Activity>, x: Seq<char>, j: int) -> bool {
    &&& 0 <= j < acts.len()
    &&& acts[j].id@ == x
    &&& forall|j2: int| 0 <= j2 < j ==> acts[j2].id@ != x
}

/// When some activity has id `x`, a first one has.
proof fn lemma_first_having_exists(acts: Seq<Activity>, x: Seq<char>, j: int)
    requires
        0 <= j < acts.len(),
        acts[j].id@ == x,
    ensures
        exists|w: int| #[trigger] first_having(acts, x, w),
    decreases j,
{
    if exists|j2: int| 0 <= j2 < j && #[trigger] acts[j2].id@ == x {
        let j2 = choose|j2: int| 0 <= j2 < j && #[trigger] acts[j2].id@ == x;
        lemma_first_having_exists(acts, x, j2);
    } else {
        assert(first_having(acts, x, j));
    }
}

/// A link is drawn as critical exactly when its activity is critical and the first activity
/// with the id that the link names is critical, whatever their dates.
pub proof fn lemma_critical_link_both_ends(acts: Seq<Activity>, k: int, i: int)
    requires
        0 <= k < acts.len(),
        0 <= i < acts[k].predecessors@.len(),
    ensures
        critical_link_of(acts, k, i) <==> (acts[k].cpm.critical && exists|j: int|
            #[trigger] first_having(acts, acts[k].predecessors@[i].activity_id@, j) && acts[j].cpm.critical),
{
    let x = acts[k].predecessors@[i].activity_id@;
    match first_with_id(acts, x) {
        Some(w) => {
            assert(exists|j: int| 0 <= j < acts.len() && #[trigger] acts[j].id@ == x);
            let j0 = choose|j: int| 0 <= j < acts.len() && #[trigger] acts[j].id@ == x;
            lemma_first_having_exists(acts, x, j0);
            let w0 = choose|w: int| #[trigger] first_having(acts, x, w);
            assert(acts[w0].id@ == x);
            assert(first_having(acts, x, w));
            assert forall|j: int| #[trigger] first_having(acts, x, j) implies j == w by {
                if j < w {
                    assert(acts[j].id@ != x);
                } else if w < j {
                    assert(acts[w].id@ != x);
                }
            }
        },
        None => {
            assert forall|j: int| !#[trigger] first_having(acts, x, j) by {
                if first_having(acts, x, j) {
                    assert(acts[j].id@ == x);
                }
            }
        },
    }
}

} // verus!
