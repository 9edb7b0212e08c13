//! The forward and backward passes over activities that are already in precedence order.
use vstd::prelude::*;
use crate::activity::{Activity, RelType};
use crate::network::{
    duration_rule, finish_rule, first_link, has_successor, ids_distinct, late_finish_rule,
    late_start_rule, late_term, link_of, total_float_rule, free_float_rule, free_term, max0, names, network, precedes_all, start_rule, start_term, Task,
};

verus! {

/// More activities than any slice can hold: every date of a schedule stays within `i128`.
pub open spec fn max_activities() -> int {
    0x1_0000_0000_0000_0000
}

/// How far one link can move a date, with room to spare: durations and lags are `i32`.
pub open spec fn step() -> int {
    0x2_0000_0000
}

/// `pp[k][i]` is the position of the task that link `i` of task `k` names, and it comes
/// before `k`.
pub open spec fn ordered_links(nb: Seq<Task>, pp: Seq<Vec<usize>>) -> bool {
    &&& pp.len() == nb.len()
    &&& forall|k: int| 0 <= k < nb.len() ==> #[trigger] pp[k]@.len() == nb[k].links.len()
    &&& forall|k: int, i: int|
        0 <= k < nb.len() && 0 <= i < nb[k].links.len() ==> {
            &&& (#[trigger] pp[k]@[i]) < k
            &&& nb[pp[k]@[i] as int].id == nb[k].links[i].pred
        }
}

/// In a network with distinct ids, a link names exactly the task at its resolved position.
pub proof fn lemma_names_resolved(nb: Seq<Task>, pp: Seq<Vec<usize>>)
    requires
        ids_distinct(nb),
        ordered_links(nb, pp),
    ensures
        forall|k: int, i: int, j: int| #[trigger] names(nb, k, i, j) <==> (0 <= k < nb.len() && 0 <= i
            < nb[k].links.len() && j == pp[k]@[i]),
        precedes_all(nb),
{
    assert forall|k: int, i: int, j: int| #[trigger] names(nb, k, i, j) implies j == pp[k]@[i] by {
        let p = pp[k]@[i] as int;
        assert(nb[p].id == nb[j].id);
    }
}

/// The earliest start that one link allows, computed.
fn start_bound(act: &Activity, i: usize, es: &Vec<i128>, ef: &Vec<i128>, j: usize) -> (t: i128)
    requires
        i < act.predecessors@.len(),
        j < es@.len(),
        j < ef@.len(),
        -step() <= es@[j as int] <= 0x1000_0000_0000_0000_0000_0000_0000,
        -step() <= ef@[j as int] <= 0x1000_0000_0000_0000_0000_0000_0000,
    ensures
        t == ({
            let p = act.predecessors@[i as int];
            match p.rel_type {
                RelType::FS => ef@[j as int] + p.lag,
                RelType::SS => es@[j as int] + p.lag,
                RelType::FF => ef@[j as int] + p.lag - act.duration,
                RelType::SF => es@[j as int] + p.lag - act.duration,
            }
        }),
{
    let p = &act.predecessors[i];
    let lag = p.lag as i128;
    let dur = act.duration as i128;
    match p.rel_type {
        RelType::FS => ef[j] + lag,
        RelType::SS => es[j] + lag,
        RelType::FF => ef[j] + lag - dur,
        RelType::SF => es[j] + lag - dur,
    }
}

/// Forward pass: earliest start and finish of every task, in precedence order.
pub fn forward_pass(base: &Vec<Activity>, pp: &Vec<Vec<usize>>) -> (res: (Vec<i128>, Vec<i128>))
    requires
        base@.len() <= max_activities(),
        ids_distinct(network(base@)),
        ordered_links(network(base@), pp@),
    ensures
        res.0@.len() == base@.len(),
        res.1@.len() == base@.len(),
        forall|k: int| 0 <= k < base@.len() ==> #[trigger] start_rule(network(base@), res.0@, res.1@, k),
        forall|k: int| 0 <= k < base@.len() ==> #[trigger] finish_rule(network(base@), res.0@, res.1@, k),
        forall|k: int| 0 <= k < base@.len() ==> 0 <= #[trigger] res.0@[k] < (k + 1) * step(),
        forall|k: int| 0 <= k < base@.len() ==> -0x8000_0000 <= #[trigger] res.1@[k] < (k + 1) * step() + 0x8000_0000,
{
    let ghost nb = network(base@);
    proof {
        lemma_names_resolved(nb, pp@);
    }
    let n = base.len();
    let mut es: Vec<i128> = Vec::new();
    let mut ef: Vec<i128> = Vec::new();
    let mut k: usize = 0;
    while k < n
        invariant
            nb == network(base@),
            n == base@.len(),
            n <= max_activities(),
            ids_distinct(nb),
            ordered_links(nb, pp@),
            forall|k1: int, i: int, j: int| #[trigger] names(nb, k1, i, j) <==> (0 <= k1 < nb.len() && 0 <= i
                < nb[k1].links.len() && j == pp@[k1]@[i]),
            k <= n,
            es@.len() == k,
            ef@.len() == k,
            forall|k1: int| 0 <= k1 < k ==> #[trigger] start_rule(nb, es@, ef@, k1),
            forall|k1: int| 0 <= k1 < k ==> #[trigger] finish_rule(nb, es@, ef@, k1),
            forall|k1: int| 0 <= k1 < k ==> 0 <= #[trigger] es@[k1] < (k1 + 1) * step(),
            forall|k1: int| 0 <= k1 < k ==> -0x8000_0000 <= #[trigger] ef@[k1] < (k1 + 1) * step() + 0x8000_0000,
        decreases n - k,
    {
        let act = &base[k];
        let row = &pp[k];
        let mut best: i128 = 0;
        let ghost mut wit: int = -1;
        let mut i: usize = 0;
        while i < row.len()
            invariant
                nb == network(base@),
                n == base@.len(),
                n <= max_activities(),
                k < n,
                *act == base@[k as int],
                *row == pp@[k as int],
                ordered_links(nb, pp@),
                forall|k1: int, i1: int, j: int| #[trigger] names(nb, k1, i1, j) <==> (0 <= k1 < nb.len() && 0 <= i1
                    < nb[k1].links.len() && j == pp@[k1]@[i1]),
                es@.len() == k,
                ef@.len() == k,
                forall|k1: int| 0 <= k1 < k ==> 0 <= #[trigger] es@[k1] < (k1 + 1) * step(),
                forall|k1: int| 0 <= k1 < k ==> -0x8000_0000 <= #[trigger] ef@[k1] < (k1 + 1) * step() + 0x8000_0000,
                i <= row@.len(),
                0 <= best < (k + 1) * step(),
                forall|i1: int, j: int|
                    0 <= i1 < i && #[trigger] names(nb, k as int, i1, j) ==> best >= start_term(nb, es@, ef@, k as int, i1, j),
                best == 0 || (0 <= wit < i && names(nb, k as int, wit, pp@[k as int]@[wit] as int) && best == start_term(
                    nb,
                    es@,
                    ef@,
                    k as int,
                    wit,
                    pp@[k as int]@[wit] as int,
                )),
            decreases row@.len() - i,
        {
            let j = row[i];
            proof {
                assert(pp@[k as int]@[i as int] < k);
                assert(names(nb, k as int, i as int, j as int));
                assert(nb[k as int].links[i as int] == link_of(act.predecessors@[i as int]));
            }
            proof {
                assert(es@[j as int] < (j + 1) * step());
                assert(ef@[j as int] < (j + 1) * step() + 0x8000_0000);
                assert((j + 1) * step() <= k * step());
            }
            let t = start_bound(act, i, &es, &ef, j);
            if t > best {
                best = t;
                proof {
                    wit = i as int;
                }
            }
            i += 1;
        }
        let f = best + act.duration as i128;
        let ghost es0 = es@;
        let ghost ef0 = ef@;
        es.push(best);
        ef.push(f);
        proof {
            assert forall|k1: int| 0 <= k1 <= k implies #[trigger] start_rule(nb, es@, ef@, k1) by {
                assert forall|i1: int, j: int| #[trigger] names(nb, k1, i1, j) implies start_term(nb, es@, ef@, k1, i1, j)
                    == start_term(nb, es0, ef0, k1, i1, j) by {
                    assert(j < k1);
                }
                if k1 < k {
                    assert(start_rule(nb, es0, ef0, k1));
                }
            }
            assert forall|k1: int| 0 <= k1 <= k implies #[trigger] finish_rule(nb, es@, ef@, k1) by {
                if k1 < k {
                    assert(finish_rule(nb, es0, ef0, k1));
                }
            }
        }
        k += 1;
    }
    (es, ef)
}

/// The project duration: the largest earliest finish.
pub fn max_finish(ef: &Vec<i128>) -> (pd: i128)
    requires
        ef@.len() > 0,
    ensures
        duration_rule(ef@, pd as int),
{
    let mut pd = ef[0];
    let ghost mut wit: int = 0;
    let mut k: usize = 1;
    while k < ef.len()
        invariant
            1 <= k <= ef@.len(),
            forall|k1: int| 0 <= k1 < k ==> pd >= #[trigger] ef@[k1],
            0 <= wit < k,
            pd == ef@[wit],
        decreases ef@.len() - k,
    {
        if ef[k] > pd {
            pd = ef[k];
            proof {
                wit = k as int;
            }
        }
        k += 1;
    }
    pd
}

/// Bound on the magnitude of the latest dates of the task at position `k` of `n`.
pub open spec fn late_bound(n: int, k: int) -> int {
    0x2000_0000_0000_0000_0000_0000_0000 + (n - k) * step()
}

/// The first of `row` that is `k`.
fn first_index_of(row: &Vec<usize>, k: usize) -> (r: Option<usize>)
    ensures
        match r {
            Some(i) => i < row@.len() && row@[i as int] == k && forall|i2: int| 0 <= i2 < i ==> row@[i2] != k,
            None => forall|i: int| 0 <= i < row@.len() ==> row@[i] != k,
        },
{
    let mut i: usize = 0;
    while i < row.len()
        invariant
            i <= row@.len(),
            forall|i2: int| 0 <= i2 < i ==> row@[i2] != k,
        decreases row@.len() - i,
    {
        if row[i] == k {
            return Some(i);
        }
        i += 1;
    }
    None
}

/// The latest finish that successor `succ` (through its link `i`) allows a task of
/// duration `dur`, computed.
fn finish_limit(succ: &Activity, i: usize, ls: &Vec<i128>, lf: &Vec<i128>, m: usize, dur: i32) -> (t: i128)
    requires
        i < succ.predecessors@.len(),
        m < ls@.len(),
        m < lf@.len(),
        -0x3000_0000_0000_0000_0000_0000_0000 <= ls@[m as int] <= 0x3000_0000_0000_0000_0000_0000_0000,
        -0x3000_0000_0000_0000_0000_0000_0000 <= lf@[m as int] <= 0x3000_0000_0000_0000_0000_0000_0000,
    ensures
        t == ({
            let p = succ.predecessors@[i as int];
            match p.rel_type {
                RelType::FS => ls@[m as int] - p.lag,
                RelType::SS => ls@[m as int] - p.lag + dur,
                RelType::FF => lf@[m as int] - p.lag,
                RelType::SF => lf@[m as int] - p.lag + dur,
            }
        }),
{
    let p = &succ.predecessors[i];
    let lag = p.lag as i128;
    let d = dur as i128;
    match p.rel_type {
        RelType::FS => ls[m] - lag,
        RelType::SS => ls[m] - lag + d,
        RelType::FF => lf[m] - lag,
        RelType::SF => lf[m] - lag + d,
    }
}

/// In a network with distinct ids and resolved links, the first link of `m` that names `k`
/// is the first position of `k` in `m`'s resolved row.
pub proof fn lemma_first_link_resolved(nb: Seq<Task>, pp: Seq<Vec<usize>>, m: int, i: int, k: int)
    requires
        ids_distinct(nb),
        ordered_links(nb, pp),
        0 <= m < nb.len(),
        0 <= k < nb.len(),
        0 <= i < nb[m].links.len(),
    ensures
        first_link(nb, m, i, k) <==> (pp[m]@[i] == k && forall|i2: int| 0 <= i2 < i ==> pp[m]@[i2] != k),
{
    lemma_names_resolved(nb, pp);
    if pp[m]@[i] == k && forall|i2: int| 0 <= i2 < i ==> pp[m]@[i2] != k {
        assert forall|i2: int| 0 <= i2 < i implies nb[m].links[i2].pred != nb[k].id by {
            if nb[m].links[i2].pred == nb[k].id {
                assert(names(nb, m, i2, k));
            }
        }
    }
    if first_link(nb, m, i, k) {
        assert forall|i2: int| 0 <= i2 < i implies pp[m]@[i2] != k by {
            if pp[m]@[i2] == k {
                assert(names(nb, m, i2, k));
            }
        }
    }
}

/// Backward pass: latest start and finish of every task, in reverse precedence order.
pub fn backward_pass(base: &Vec<Activity>, pp: &Vec<Vec<usize>>, pd: i128) -> (res: (Vec<i128>, Vec<i128>))
    requires
        base@.len() <= max_activities(),
        ids_distinct(network(base@)),
        ordered_links(network(base@), pp@),
        -0x8000_0000 <= pd <= base@.len() * step() + 0x8000_0000,
    ensures
        res.0@.len() == base@.len(),
        res.1@.len() == base@.len(),
        forall|k: int| 0 <= k < base@.len() ==> #[trigger] late_finish_rule(network(base@), res.0@, res.1@, pd as int, k),
        forall|k: int| 0 <= k < base@.len() ==> #[trigger] late_start_rule(network(base@), res.0@, res.1@, k),
        forall|k: int|
            0 <= k < base@.len() ==> -late_bound(base@.len() as int, k) - 0x8000_0000 <= #[trigger] res.0@[k]
                <= late_bound(base@.len() as int, k) + 0x8000_0000,
        forall|k: int|
            0 <= k < base@.len() ==> -late_bound(base@.len() as int, k) <= #[trigger] res.1@[k] <= late_bound(
                base@.len() as int,
                k,
            ),
{
    let ghost nb = network(base@);
    proof {
        lemma_names_resolved(nb, pp@);
    }
    let n = base.len();
    let mut ls: Vec<i128> = vec![0; n];
    let mut lf: Vec<i128> = vec![0; n];
    let mut k: usize = n;
    while k > 0
        invariant
            nb == network(base@),
            n == base@.len(),
            n <= max_activities(),
            ids_distinct(nb),
            ordered_links(nb, pp@),
            forall|k1: int, i: int, j: int| #[trigger] names(nb, k1, i, j) <==> (0 <= k1 < nb.len() && 0 <= i
                < nb[k1].links.len() && j == pp@[k1]@[i]),
            -0x8000_0000 <= pd <= n * step() + 0x8000_0000,
            k <= n,
            ls@.len() == n,
            lf@.len() == n,
            forall|k1: int| k <= k1 < n ==> #[trigger] late_finish_rule(nb, ls@, lf@, pd as int, k1),
            forall|k1: int| k <= k1 < n ==> #[trigger] late_start_rule(nb, ls@, lf@, k1),
            forall|k1: int|
                k <= k1 < n ==> -late_bound(n as int, k1) - 0x8000_0000 <= #[trigger] ls@[k1] <= late_bound(n as int, k1)
                    + 0x8000_0000,
            forall|k1: int| k <= k1 < n ==> -late_bound(n as int, k1) <= #[trigger] lf@[k1] <= late_bound(n as int, k1),
        decreases k,
    {
        k -= 1;
        let dur = base[k].duration;
        let mut found = false;
        let mut best: i128 = 0;
        let ghost mut wm: int = 0;
        let ghost mut wi: int = 0;
        let mut m: usize = k + 1;
        while m < n
            invariant
                nb == network(base@),
                n == base@.len(),
                n <= max_activities(),
                ids_distinct(nb),
                ordered_links(nb, pp@),
                forall|k1: int, i: int, j: int| #[trigger] names(nb, k1, i, j) <==> (0 <= k1 < nb.len() && 0 <= i
                    < nb[k1].links.len() && j == pp@[k1]@[i]),
                k < m <= n,
                dur == base@[k as int].duration,
                ls@.len() == n,
                lf@.len() == n,
                forall|k1: int|
                    k < k1 < n ==> -late_bound(n as int, k1) - 0x8000_0000 <= #[trigger] ls@[k1] <= late_bound(
                        n as int,
                        k1,
                    ) + 0x8000_0000,
                forall|k1: int| k < k1 < n ==> -late_bound(n as int, k1) <= #[trigger] lf@[k1] <= late_bound(n as int, k1),
                found <==> exists|m1: int, i1: int| 0 <= m1 < m && #[trigger] first_link(nb, m1, i1, k as int),
                forall|m1: int, i1: int|
                    0 <= m1 < m && #[trigger] first_link(nb, m1, i1, k as int) ==> best <= late_term(
                        nb,
                        ls@,
                        lf@,
                        k as int,
                        m1,
                        i1,
                    ),
                found ==> first_link(nb, wm, wi, k as int) && best == late_term(nb, ls@, lf@, k as int, wm, wi),
                found ==> -late_bound(n as int, k as int) <= best <= late_bound(n as int, k as int),
            decreases n - m,
        {
            match first_index_of(&pp[m], k) {
                Some(i) => {
                    proof {
                        lemma_first_link_resolved(nb, pp@, m as int, i as int, k as int);
                        assert(nb[m as int].links[i as int] == link_of(base@[m as int].predecessors@[i as int]));
                    }
                    let t = finish_limit(&base[m], i, &ls, &lf, m, dur);
                    if !found || t < best {
                        best = t;
                        proof {
                            wm = m as int;
                            wi = i as int;
                        }
                    }
                    found = true;
                    proof {
                        assert forall|i1: int| #[trigger] first_link(nb, m as int, i1, k as int) implies i1 == i by {
                            lemma_first_link_resolved(nb, pp@, m as int, i1, k as int);
                        }
                    }
                },
                None => {
                    proof {
                        assert forall|i1: int| !#[trigger] first_link(nb, m as int, i1, k as int) by {
                            if 0 <= i1 < nb[m as int].links.len() {
                                lemma_first_link_resolved(nb, pp@, m as int, i1, k as int);
                            }
                        }
                    }
                },
            }
            m += 1;
        }
        proof {
            assert forall|m1: int, i1: int| #[trigger] first_link(nb, m1, i1, k as int) implies m1 < n by {}
            assert(has_successor(nb, k as int) == found);
        }
        let f = if found { best } else { pd };
        let ghost ls0 = ls@;
        let ghost lf0 = lf@;
        lf.set(k, f);
        ls.set(k, f - dur as i128);
        proof {
            assert forall|k1: int| k <= k1 < n implies #[trigger] late_finish_rule(nb, ls@, lf@, pd as int, k1) by {
                assert forall|m1: int, i1: int| #[trigger] first_link(nb, m1, i1, k1) implies late_term(nb, ls@, lf@, k1, m1, i1)
                    == late_term(nb, ls0, lf0, k1, m1, i1) by {
                    assert(names(nb, m1, i1, k1));
                }
                if k1 > k {
                    assert(late_finish_rule(nb, ls0, lf0, pd as int, k1));
                }
            }
            assert forall|k1: int| k <= k1 < n implies #[trigger] late_start_rule(nb, ls@, lf@, k1) by {
                if k1 > k {
                    assert(late_start_rule(nb, ls0, lf0, k1));
                }
            }
        }
    }
    (ls, lf)
}

/// The float that successor `succ` (through its link `i`) leaves the task at `k`, computed.
fn float_left(succ: &Activity, i: usize, es: &Vec<i128>, ef: &Vec<i128>, k: usize, m: usize) -> (t: i128)
    requires
        i < succ.predecessors@.len(),
        k < es@.len(),
        m < es@.len(),
        es@.len() == ef@.len(),
        -0x1100_0000_0000_0000_0000_0000_0000 <= es@[k as int] <= 0x1100_0000_0000_0000_0000_0000_0000,
        -0x1100_0000_0000_0000_0000_0000_0000 <= ef@[k as int] <= 0x1100_0000_0000_0000_0000_0000_0000,
        -0x1100_0000_0000_0000_0000_0000_0000 <= es@[m as int] <= 0x1100_0000_0000_0000_0000_0000_0000,
        -0x1100_0000_0000_0000_0000_0000_0000 <= ef@[m as int] <= 0x1100_0000_0000_0000_0000_0000_0000,
    ensures
        t == ({
            let p = succ.predecessors@[i as int];
            match p.rel_type {
                RelType::FS => es@[m as int] - ef@[k as int] - p.lag,
                RelType::SS => es@[m as int] - es@[k as int] - p.lag,
                RelType::FF => ef@[m as int] - ef@[k as int] - p.lag,
                RelType::SF => ef@[m as int] - es@[k as int] - p.lag,
            }
        }),
{
    let p = &succ.predecessors[i];
    let lag = p.lag as i128;
    match p.rel_type {
        RelType::FS => es[m] - ef[k] - lag,
        RelType::SS => es[m] - es[k] - lag,
        RelType::FF => ef[m] - ef[k] - lag,
        RelType::SF => ef[m] - es[k] - lag,
    }
}

/// Total float, criticality and free float of every task.
pub fn float_pass(
    base: &Vec<Activity>,
    pp: &Vec<Vec<usize>>,
    es: &Vec<i128>,
    ef: &Vec<i128>,
    ls: &Vec<i128>,
    lf: &Vec<i128>,
) -> (res: (Vec<i128>, Vec<bool>, Vec<i128>))
    requires
        base@.len() <= max_activities(),
        ids_distinct(network(base@)),
        ordered_links(network(base@), pp@),
        es@.len() == base@.len(),
        ef@.len() == base@.len(),
        ls@.len() == base@.len(),
        lf@.len() == base@.len(),
        forall|k: int| 0 <= k < base@.len() ==> 0 <= #[trigger] es@[k] < (k + 1) * step(),
        forall|k: int| 0 <= k < base@.len() ==> -0x8000_0000 <= #[trigger] ef@[k] < (k + 1) * step() + 0x8000_0000,
        forall|k: int|
            0 <= k < base@.len() ==> -late_bound(base@.len() as int, k) - 0x8000_0000 <= #[trigger] ls@[k]
                <= late_bound(base@.len() as int, k) + 0x8000_0000,
        forall|k: int|
            0 <= k < base@.len() ==> -late_bound(base@.len() as int, k) <= #[trigger] lf@[k] <= late_bound(
                base@.len() as int,
                k,
            ),
    ensures
        res.0@.len() == base@.len(),
        res.1@.len() == base@.len(),
        res.2@.len() == base@.len(),
        forall|k: int| 0 <= k < base@.len() ==> #[trigger] total_float_rule(es@, ls@, res.0@, res.1@, k),
        forall|k: int| 0 <= k < base@.len() ==> #[trigger] free_float_rule(network(base@), es@, ef@, lf@, res.2@, k),
{
    let ghost nb = network(base@);
    proof {
        lemma_names_resolved(nb, pp@);
    }
    let n = base.len();
    let mut tf: Vec<i128> = Vec::new();
    let mut crit: Vec<bool> = Vec::new();
    let mut ff: Vec<i128> = Vec::new();
    let mut k: usize = 0;
    while k < n
        invariant
            nb == network(base@),
            n == base@.len(),
            n <= max_activities(),
            ids_distinct(nb),
            ordered_links(nb, pp@),
            forall|k1: int, i: int, j: int| #[trigger] names(nb, k1, i, j) <==> (0 <= k1 < nb.len() && 0 <= i
                < nb[k1].links.len() && j == pp@[k1]@[i]),
            es@.len() == n,
            ef@.len() == n,
            ls@.len() == n,
            lf@.len() == n,
            forall|k1: int| 0 <= k1 < n ==> 0 <= #[trigger] es@[k1] < (k1 + 1) * step(),
            forall|k1: int| 0 <= k1 < n ==> -0x8000_0000 <= #[trigger] ef@[k1] < (k1 + 1) * step() + 0x8000_0000,
            forall|k1: int|
                0 <= k1 < n ==> -late_bound(n as int, k1) - 0x8000_0000 <= #[trigger] ls@[k1] <= late_bound(n as int, k1)
                    + 0x8000_0000,
            forall|k1: int| 0 <= k1 < n ==> -late_bound(n as int, k1) <= #[trigger] lf@[k1] <= late_bound(n as int, k1),
            k <= n,
            tf@.len() == k,
            crit@.len() == k,
            ff@.len() == k,
            forall|k1: int| 0 <= k1 < k ==> #[trigger] total_float_rule(es@, ls@, tf@, crit@, k1),
            forall|k1: int| 0 <= k1 < k ==> #[trigger] free_float_rule(nb, es@, ef@, lf@, ff@, k1),
        decreases n - k,
    {
        proof {
            assert(es@[k as int] < (k + 1) * step());
            assert(ls@[k as int] <= late_bound(n as int, k as int) + 0x8000_0000);
        }
        let slack = ls[k] - es[k];
        let t = if slack < 0 { 0 } else { slack };
        let mut found = false;
        let mut best: i128 = 0;
        let ghost mut wm: int = 0;
        let ghost mut wi: int = 0;
        let mut m: usize = k + 1;
        while m < n
            invariant
                nb == network(base@),
                n == base@.len(),
                n <= max_activities(),
                ids_distinct(nb),
                ordered_links(nb, pp@),
                forall|k1: int, i: int, j: int| #[trigger] names(nb, k1, i, j) <==> (0 <= k1 < nb.len() && 0 <= i
                    < nb[k1].links.len() && j == pp@[k1]@[i]),
                es@.len() == n,
                ef@.len() == n,
                forall|k1: int| 0 <= k1 < n ==> 0 <= #[trigger] es@[k1] < (k1 + 1) * step(),
                forall|k1: int| 0 <= k1 < n ==> -0x8000_0000 <= #[trigger] ef@[k1] < (k1 + 1) * step() + 0x8000_0000,
                k < m <= n,
                found <==> exists|m1: int, i1: int| 0 <= m1 < m && #[trigger] first_link(nb, m1, i1, k as int),
                forall|m1: int, i1: int|
                    0 <= m1 < m && #[trigger] first_link(nb, m1, i1, k as int) ==> best <= max0(
                        free_term(nb, es@, ef@, k as int, m1, i1),
                    ),
                found ==> first_link(nb, wm, wi, k as int) && best == max0(free_term(nb, es@, ef@, k as int, wm, wi)),
            decreases n - m,
        {
            match first_index_of(&pp[m], k) {
                Some(i) => {
                    proof {
                        lemma_first_link_resolved(nb, pp@, m as int, i as int, k as int);
                        assert(nb[m as int].links[i as int] == link_of(base@[m as int].predecessors@[i as int]));
                        assert(es@[m as int] < (m + 1) * step());
                        assert(ef@[m as int] < (m + 1) * step() + 0x8000_0000);
                        assert(es@[k as int] < (k + 1) * step());
                        assert(ef@[k as int] < (k + 1) * step() + 0x8000_0000);
                        assert((m + 1) * step() <= 0x1000_0000_0000_0000_0000_0000_0000);
                        assert((k + 1) * step() <= 0x1000_0000_0000_0000_0000_0000_0000);
                    }
                    let raw = float_left(&base[m], i, es, ef, k, m);
                    let v = if raw < 0 { 0 } else { raw };
                    if !found || v < best {
                        best = v;
                        proof {
                            wm = m as int;
                            wi = i as int;
                        }
                    }
                    found = true;
                    proof {
                        assert forall|i1: int| #[trigger] first_link(nb, m as int, i1, k as int) implies i1 == i by {
                            lemma_first_link_resolved(nb, pp@, m as int, i1, k as int);
                        }
                    }
                },
                None => {
                    proof {
                        assert forall|i1: int| !#[trigger] first_link(nb, m as int, i1, k as int) by {
                            if 0 <= i1 < nb[m as int].links.len() {
                                lemma_first_link_resolved(nb, pp@, m as int, i1, k as int);
                            }
                        }
                    }
                },
            }
            m += 1;
        }
        proof {
            assert forall|m1: int, i1: int| #[trigger] first_link(nb, m1, i1, k as int) implies m1 < n by {}
            assert(has_successor(nb, k as int) == found);
            assert(lf@[k as int] <= late_bound(n as int, k as int));
            assert(ef@[k as int] < (k + 1) * step() + 0x8000_0000);
        }
        let free = if found { best } else { lf[k] - ef[k] };
        let ghost tf0 = tf@;
        let ghost crit0 = crit@;
        let ghost ff0 = ff@;
        tf.push(t);
        crit.push(t == 0);
        ff.push(free);
        proof {
            assert forall|k1: int| 0 <= k1 <= k implies #[trigger] total_float_rule(es@, ls@, tf@, crit@, k1) by {
                if k1 < k {
                    assert(total_float_rule(es@, ls@, tf0, crit0, k1));
                }
            }
            assert forall|k1: int| 0 <= k1 <= k implies #[trigger] free_float_rule(nb, es@, ef@, lf@, ff@, k1) by {
                if k1 < k {
                    assert(free_float_rule(nb, es@, ef@, lf@, ff0, k1));
                }
            }
        }
        k += 1;
    }
    (tf, crit, ff)
}

} // verus!
