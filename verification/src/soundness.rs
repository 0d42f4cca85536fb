//! What edge finding promises of schedules: whenever the tasks can start within their
//! bounds without two of them overlapping, propagation succeeds and every such schedule
//! stays within the bounds it leaves. A failure therefore means that no schedule exists.
use vstd::prelude::*;
use crate::disjunctive::{
    edge_finding_done, edge_found, ef_frame, ef_orders, ef_pass, ef_tasks_ok, justified, lct_keys, lct_of,
    lemma_orders,
    lemma_set_leaves_ok, mirrors, overload_found, propagated, raise_overflows, rank, reverse_view, set_leaves, theta_ect,
    theta_ect_with, DisjunctivePropagator, DisjunctiveTask, half_toward_zero, overload_delta, overload_reason,
    overload_start, overload_window, suffix_p, ef_omega_start, ef_omega_prime_start, ef_reason, min2,
    ef_delta, run_end, lemma_no_overflow_before, no_overload_before, white_lbs_ok, lemma_theta_entry,
    lemma_theta_sorted, lemma_theta_attained, lemma_theta_sum,
};
use crate::engine::{all_met, lemma_bound_predicates_mean, Assignments, Inconsistency, IntVar, Predicate, DOMAIN_LIMIT, OFFSET_LIMIT};
use crate::sorting::key_before;
use crate::theta_lambda_trees::{durations_of, lb_keys, lemma_sum_member, lemma_task_leaf, task_leaf, task_pairs, Node, ThetaLambdaTree};
use crate::tree_spec::{
    all_leaf_ok, ect_of, est, has_white, is_empty_leaf, is_white, leaf_ok, lemma_ect_attained, lemma_leaf_ok_subrange,
    lemma_sum_p_split, lemma_term_le_ect, sum_entries, sum_p_of, term, theta_entries, TREE_LIMIT,
};

verus! {

/// Total duration of the active intervals `x[q] = (start, duration)` at positions `k` and on.
pub open spec fn active_sum(x: Seq<(int, int)>, act: Seq<bool>, k: int) -> int
    decreases x.len() - k,
{
    if k < 0 || k >= x.len() {
        0
    } else {
        (if act[k] { x[k].1 } else { 0 }) + active_sum(x, act, k + 1)
    }
}

/// Number of active positions at `k` and on.
pub open spec fn active_count(act: Seq<bool>, k: int) -> int
    decreases act.len() - k,
{
    if k < 0 || k >= act.len() {
        0
    } else {
        (if act[k] { 1int } else { 0int }) + active_count(act, k + 1)
    }
}

proof fn lemma_count_less(act: Seq<bool>, act2: Seq<bool>, m: int, k: int)
    requires
        act2.len() == act.len(),
        0 <= k <= act.len(),
        forall|i: int| 0 <= i < act.len() && #[trigger] act2[i] ==> act[i],
    ensures
        active_count(act2, k) <= active_count(act, k),
        k <= m < act.len() && act[m] && !act2[m] ==> active_count(act2, k) < active_count(act, k),
    decreases act.len() - k,
{
    if k < act.len() {
        lemma_count_less(act, act2, m, k + 1);
    }
}

proof fn lemma_count_nonneg(act: Seq<bool>, k: int)
    requires
        0 <= k <= act.len(),
    ensures
        active_count(act, k) >= 0,
    decreases act.len() - k,
{
    if k < act.len() {
        lemma_count_nonneg(act, k + 1);
    }
}

proof fn lemma_sum_inactive(x: Seq<(int, int)>, act: Seq<bool>, k: int)
    requires
        act.len() == x.len(),
        0 <= k <= x.len(),
        forall|i: int| k <= i < x.len() ==> !#[trigger] act[i],
    ensures
        active_sum(x, act, k) == 0,
    decreases x.len() - k,
{
    if k < x.len() {
        lemma_sum_inactive(x, act, k + 1);
    }
}

/// Dropping the active position `m`, and active positions of no duration, lowers the
/// total by the duration of `m`.
proof fn lemma_sum_drop(x: Seq<(int, int)>, act: Seq<bool>, act2: Seq<bool>, m: int, k: int)
    requires
        act.len() == x.len(),
        act2.len() == x.len(),
        0 <= k <= x.len(),
        0 <= m < x.len(),
        act[m],
        !act2[m],
        forall|i: int| 0 <= i < x.len() && #[trigger] act2[i] ==> act[i],
        forall|i: int| 0 <= i < x.len() && i != m && #[trigger] act[i] && !act2[i] ==> x[i].1 == 0,
    ensures
        active_sum(x, act2, k) == active_sum(x, act, k) - (if k <= m { x[m].1 } else { 0 }),
    decreases x.len() - k,
{
    if k < x.len() {
        lemma_sum_drop(x, act, act2, m, k + 1);
    }
}

/// Among active intervals at `k` and on, one ends last.
proof fn lemma_last_end(x: Seq<(int, int)>, act: Seq<bool>, k: int)
    requires
        act.len() == x.len(),
        0 <= k < x.len(),
        exists|i: int| k <= i < x.len() && #[trigger] act[i],
    ensures
        exists|m: int|
            k <= m < x.len() && #[trigger] act[m] && forall|j: int|
                k <= j < x.len() && #[trigger] act[j] ==> x[j].0 + x[j].1 <= x[m].0 + x[m].1,
    decreases x.len() - k,
{
    if exists|i: int| k + 1 <= i < x.len() && #[trigger] act[i] {
        lemma_last_end(x, act, k + 1);
        let m = choose|m: int|
            k + 1 <= m < x.len() && #[trigger] act[m] && forall|j: int|
                k + 1 <= j < x.len() && #[trigger] act[j] ==> x[j].0 + x[j].1 <= x[m].0 + x[m].1;
        if act[k] && x[k].0 + x[k].1 > x[m].0 + x[m].1 {
            assert(forall|j: int| k <= j < x.len() && #[trigger] act[j] ==> x[j].0 + x[j].1 <= x[k].0 + x[k].1);
        } else {
            assert(forall|j: int| k <= j < x.len() && #[trigger] act[j] ==> x[j].0 + x[j].1 <= x[m].0 + x[m].1);
        }
    } else {
        assert(act[k]);
        assert(forall|j: int| k <= j < x.len() && #[trigger] act[j] ==> j == k);
    }
}

/// The active intervals other than `m` that end by the time `m` starts.
#[verifier::opaque]
pub open spec fn ending_before(x: Seq<(int, int)>, act: Seq<bool>, m: int) -> Seq<bool> {
    Seq::new(x.len(), |j: int| act[j] && j != m && x[j].0 + x[j].1 <= x[m].0)
}

/// The intervals that end by the time the last-ending interval `m` starts are, with `m`,
/// all active intervals of positive duration, and keep the conditions of packing.
proof fn lemma_ending_before(x: Seq<(int, int)>, act: Seq<bool>, t: int, m: int)
    requires
        act.len() == x.len(),
        forall|i: int| 0 <= i < x.len() && #[trigger] act[i] ==> x[i].1 >= 0 && x[i].0 >= t,
        forall|i: int, j: int|
            #![trigger act[i], act[j]]
            0 <= i < x.len() && 0 <= j < x.len() && i != j && act[i] && act[j] ==> x[i].0 + x[i].1 <= x[j].0
                || x[j].0 + x[j].1 <= x[i].0,
        0 <= m < x.len(),
        act[m],
        forall|j: int| 0 <= j < x.len() && #[trigger] act[j] ==> x[j].0 + x[j].1 <= x[m].0 + x[m].1,
    ensures
        ({
            let act2 = ending_before(x, act, m);
            &&& act2.len() == x.len()
            &&& !act2[m]
            &&& forall|i: int| 0 <= i < x.len() && #[trigger] act2[i] ==> act[i] && x[i].0 + x[i].1 <= x[m].0
            &&& forall|i: int| 0 <= i < x.len() && i != m && #[trigger] act[i] && !act2[i] ==> x[i].1 == 0
            &&& forall|i: int| 0 <= i < x.len() && #[trigger] act2[i] ==> x[i].1 >= 0 && x[i].0 >= t
            &&& forall|i: int, j: int|
                #![trigger act2[i], act2[j]]
                0 <= i < x.len() && 0 <= j < x.len() && i != j && act2[i] && act2[j] ==> x[i].0 + x[i].1 <= x[j].0
                    || x[j].0 + x[j].1 <= x[i].0
        }),
{
    reveal(ending_before);
    let act2 = ending_before(x, act, m);
    assert forall|i: int| 0 <= i < x.len() && i != m && #[trigger] act[i] && !act2[i] implies x[i].1 == 0 by {
        assert(act[i] && act[m]);
    }
    assert forall|i: int, j: int|
        #![trigger act2[i], act2[j]]
        0 <= i < x.len() && 0 <= j < x.len() && i != j && act2[i] && act2[j] implies x[i].0 + x[i].1 <= x[j].0
            || x[j].0 + x[j].1 <= x[i].0 by {
        assert(act[i] && act[j]);
    }
}

/// Intervals `x[q] = (start, duration)` that start no earlier than `t` and of which no two
/// overlap take up their total duration after `t`: one of them ends no earlier than `t`
/// plus that total.
pub proof fn lemma_packing(x: Seq<(int, int)>, act: Seq<bool>, t: int)
    requires
        act.len() == x.len(),
        forall|i: int| 0 <= i < x.len() && #[trigger] act[i] ==> x[i].1 >= 0 && x[i].0 >= t,
        forall|i: int, j: int|
            #![trigger act[i], act[j]]
            0 <= i < x.len() && 0 <= j < x.len() && i != j && act[i] && act[j] ==> x[i].0 + x[i].1 <= x[j].0
                || x[j].0 + x[j].1 <= x[i].0,
        exists|i: int| 0 <= i < x.len() && #[trigger] act[i],
    ensures
        exists|i: int| 0 <= i < x.len() && #[trigger] act[i] && x[i].0 + x[i].1 >= t + active_sum(x, act, 0),
    decreases active_count(act, 0),
{
    lemma_last_end(x, act, 0);
    let m = choose|m: int|
        0 <= m < x.len() && #[trigger] act[m] && forall|j: int|
            0 <= j < x.len() && #[trigger] act[j] ==> x[j].0 + x[j].1 <= x[m].0 + x[m].1;
    lemma_ending_before(x, act, t, m);
    let act2 = ending_before(x, act, m);
    lemma_sum_drop(x, act, act2, m, 0);
    if exists|i: int| 0 <= i < x.len() && #[trigger] act2[i] {
        lemma_count_less(act, act2, m, 0);
        lemma_count_nonneg(act2, 0);
        lemma_packing(x, act2, t);
        let k = choose|i: int| 0 <= i < x.len() && #[trigger] act2[i] && x[i].0 + x[i].1 >= t + active_sum(x, act2, 0);
        assert(x[m].0 + x[m].1 >= t + active_sum(x, act, 0));
    } else {
        lemma_sum_inactive(x, act2, 0);
        assert(x[m].0 + x[m].1 >= t + active_sum(x, act, 0));
    }
}

/// The durations of the white leaves from `q` on, with the intervals of white leaves from
/// `k` on active, add up as theta's total from `q` on.
proof fn lemma_white_sum(s: Seq<Node>, x: Seq<(int, int)>, act: Seq<bool>, k: int, q: int)
    requires
        all_leaf_ok(s),
        x.len() == s.len(),
        act.len() == s.len(),
        0 <= k <= q <= s.len(),
        forall|i: int| 0 <= i < s.len() ==> (#[trigger] x[i]).1 == s[i].sum_p,
        forall|i: int| 0 <= i < s.len() ==> #[trigger] act[i] == (i >= k && is_white(s[i])),
    ensures
        active_sum(x, act, q) == sum_p_of(s.skip(q)),
    decreases s.len() - q,
{
    if q < s.len() {
        lemma_white_sum(s, x, act, k, q + 1);
        assert(s.skip(q).drop_first() =~= s.skip(q + 1));
        assert(s.skip(q)[0] == s[q]);
        assert(leaf_ok(s[q]));
    } else {
        assert(s.skip(q).len() == 0);
    }
}

proof fn lemma_inactive_prefix(x: Seq<(int, int)>, act: Seq<bool>, k: int, q: int)
    requires
        act.len() == x.len(),
        0 <= q <= k <= x.len(),
        forall|i: int| 0 <= i < k ==> !#[trigger] act[i],
    ensures
        active_sum(x, act, q) == active_sum(x, act, k),
    decreases k - q,
{
    if q < k {
        lemma_inactive_prefix(x, act, k, q + 1);
    }
}

/// Tasks on white leaves in order of earliest start, started at `st` no earlier than their
/// earliest starts and with no two overlapping, have one that completes no earlier than
/// theta's earliest completion time.
pub proof fn lemma_leaves_completion(s: Seq<Node>, st: Seq<int>)
    requires
        all_leaf_ok(s),
        has_white(s),
        st.len() == s.len(),
        forall|q: int, r: int|
            0 <= q <= r < s.len() && is_white(#[trigger] s[q]) && is_white(#[trigger] s[r]) ==> est(s[q]) <= est(s[r]),
        forall|q: int| 0 <= q < s.len() && is_white(s[q]) ==> #[trigger] st[q] >= est(s[q]),
        forall|q: int, r: int|
            #![trigger st[q], st[r]]
            0 <= q < s.len() && 0 <= r < s.len() && q != r && is_white(s[q]) && is_white(s[r]) ==> st[q] + s[q].sum_p <= st[r]
                || st[r] + s[r].sum_p <= st[q],
    ensures
        exists|q: int| 0 <= q < s.len() && is_white(s[q]) && #[trigger] st[q] + s[q].sum_p >= ect_of(s),
{
    lemma_ect_attained(s);
    let k = choose|k: int| 0 <= k < s.len() && is_white(s[k]) && #[trigger] term(s, k) == ect_of(s);
    let x = Seq::new(s.len(), |i: int| (st[i], s[i].sum_p as int));
    let act = Seq::new(s.len(), |i: int| i >= k && is_white(s[i]));
    lemma_white_sum(s, x, act, k, k);
    lemma_inactive_prefix(x, act, k, 0);
    assert(s.skip(k).drop_first() =~= s.skip(k + 1));
    assert(s.skip(k)[0] == s[k]);
    assert(leaf_ok(s[k]));
    let t = est(s[k]);
    assert(active_sum(x, act, 0) == s[k].sum_p + sum_p_of(s.skip(k + 1)));
    assert(term(s, k) == t + active_sum(x, act, 0));
    assert forall|i: int| 0 <= i < x.len() && #[trigger] act[i] implies x[i].1 >= 0 && x[i].0 >= t by {
        assert(leaf_ok(s[i]));
        assert(st[i] >= est(s[i]));
        assert(est(s[k]) <= est(s[i]));
    }
    assert forall|i: int, j: int|
        #![trigger act[i], act[j]]
        0 <= i < x.len() && 0 <= j < x.len() && i != j && act[i] && act[j] implies x[i].0 + x[i].1 <= x[j].0
            || x[j].0 + x[j].1 <= x[i].0 by {
        assert(st[i] + s[i].sum_p <= st[j] || st[j] + s[j].sum_p <= st[i]);
    }
    assert(act[k]);
    lemma_packing(x, act, t);
    let q = choose|i: int| 0 <= i < x.len() && #[trigger] act[i] && x[i].0 + x[i].1 >= t + active_sum(x, act, 0);
    assert(st[q] + s[q].sum_p >= ect_of(s));
}

/// Start times `s`, one per task, within the bounds of `a`, under which no two tasks
/// overlap (a task occupies `[s[i], s[i] + duration)`).
pub open spec fn feasible(tasks: Seq<DisjunctiveTask>, a: &Assignments, s: Seq<int>) -> bool {
    &&& s.len() == tasks.len()
    &&& forall|i: int|
        0 <= i < tasks.len() ==> tasks[i].start_times.view_lb(a) <= #[trigger] s[i] <= tasks[i].start_times.view_ub(a)
    &&& forall|i: int, j: int|
        #![trigger s[i], s[j]]
        0 <= i < tasks.len() && 0 <= j < tasks.len() && i != j ==> s[i] + tasks[i].duration <= s[j] || s[j]
            + tasks[j].duration <= s[i]
}

proof fn lemma_lct_key(tasks: Seq<DisjunctiveTask>, a0: &Assignments, lo: Seq<usize>, co: Seq<usize>, t: int)
    requires
        ef_orders(tasks, a0, lo, co),
        0 <= t < tasks.len(),
    ensures
        lct_keys(tasks, a0)[t] == -lct_of(tasks[t], a0),
{
    a0.lemma_bounds();
    lemma_task_leaf(task_pairs(tasks), a0, t);
    assert(tasks[t].start_times.valid(a0));
}

/// Tasks at position `b` of `co` and later complete no later than the task at `b`.
proof fn lemma_lct_order(tasks: Seq<DisjunctiveTask>, a0: &Assignments, lo: Seq<usize>, co: Seq<usize>, b: int, k: int)
    requires
        ef_orders(tasks, a0, lo, co),
        0 <= b < tasks.len(),
        0 <= k < tasks.len(),
        rank(co, k) >= b,
    ensures
        lct_of(tasks[k], a0) <= lct_of(tasks[co[b] as int], a0),
{
    lemma_orders(tasks, a0, lo, co);
    let rk = rank(co, k);
    if rk > b {
        assert(key_before(lct_keys(tasks, a0), co[b] as int, co[rk] as int));
        lemma_lct_key(tasks, a0, lo, co, k);
        lemma_lct_key(tasks, a0, lo, co, co[b] as int);
    }
}

/// Under a schedule, some task of theta from position `b`, or task `extra`, completes no
/// earlier than the earliest completion time of that set.
pub proof fn lemma_set_completion(
    tasks: Seq<DisjunctiveTask>,
    a0: &Assignments,
    lo: Seq<usize>,
    co: Seq<usize>,
    b: int,
    extra: int,
    sched: Seq<int>,
)
    requires
        ef_orders(tasks, a0, lo, co),
        feasible(tasks, a0, sched),
        0 <= b < tasks.len(),
    ensures
        exists|k: int|
            0 <= k < tasks.len() && (rank(co, k) >= b || k == extra) && #[trigger] sched[k] + tasks[k].duration
                >= ect_of(set_leaves(tasks, a0, lo, co, b, extra, tasks.len() as int)),
{
    lemma_orders(tasks, a0, lo, co);
    let n = tasks.len() as int;
    let s = set_leaves(tasks, a0, lo, co, b, extra, n);
    lemma_set_leaves_ok(tasks, a0, lo, co, b, extra, n);
    let keys = lb_keys(task_pairs(tasks), a0);
    assert forall|q: int| 0 <= q < n implies (is_white(#[trigger] s[q]) <==> (rank(co, lo[q] as int) >= b
        || lo[q] as int == extra)) && (is_white(s[q]) ==> s[q] == task_leaf(task_pairs(tasks)[lo[q] as int], a0)
        && est(s[q]) == keys[lo[q] as int] && s[q].sum_p == tasks[lo[q] as int].duration) by {
        lemma_task_leaf(task_pairs(tasks), a0, lo[q] as int);
        if !(rank(co, lo[q] as int) >= b || lo[q] as int == extra) {
            assert(is_empty_leaf(s[q]));
        }
    }
    let q0 = rank(lo, co[b] as int);
    assert(lo[q0] == co[b]);
    assert(is_white(s[q0]));
    let st = Seq::new(n as nat, |q: int| sched[lo[q] as int]);
    assert forall|q: int, r: int|
        0 <= q <= r < s.len() && is_white(#[trigger] s[q]) && is_white(#[trigger] s[r]) implies est(s[q]) <= est(s[r]) by {
        if q < r {
            assert(key_before(keys, lo[q] as int, lo[r] as int));
        }
    }
    assert forall|q: int| 0 <= q < s.len() && is_white(s[q]) implies #[trigger] st[q] >= est(s[q]) by {
        lemma_task_leaf(task_pairs(tasks), a0, lo[q] as int);
        assert(sched[lo[q] as int] >= tasks[lo[q] as int].start_times.view_lb(a0));
    }
    assert forall|q: int, r: int|
        #![trigger st[q], st[r]]
        0 <= q < s.len() && 0 <= r < s.len() && q != r && is_white(s[q]) && is_white(s[r]) implies st[q] + s[q].sum_p
            <= st[r] || st[r] + s[r].sum_p <= st[q] by {
        if q < r {
            assert(lo[q] != lo[r]);
        } else {
            assert(lo[r] != lo[q]);
        }
        let i = lo[q] as int;
        let j = lo[r] as int;
        assert(sched[i] + tasks[i].duration <= sched[j] || sched[j] + tasks[j].duration <= sched[i]);
    }
    lemma_leaves_completion(s, st);
    let q = choose|q: int| 0 <= q < s.len() && is_white(s[q]) && #[trigger] st[q] + s[q].sum_p >= ect_of(s);
    let k = lo[q] as int;
    assert(sched[k] + tasks[k].duration >= ect_of(s));
}

/// Under a schedule, theta from any position completes by the latest completion of its
/// first task: no theta is overloaded.
pub proof fn lemma_theta_fits(tasks: Seq<DisjunctiveTask>, a0: &Assignments, lo: Seq<usize>, co: Seq<usize>, b: int, sched: Seq<int>)
    requires
        ef_orders(tasks, a0, lo, co),
        feasible(tasks, a0, sched),
        0 <= b < tasks.len(),
    ensures
        theta_ect(tasks, a0, lo, co, b) <= lct_of(tasks[co[b] as int], a0),
{
    lemma_set_completion(tasks, a0, lo, co, b, -1, sched);
    let k = choose|k: int|
        0 <= k < tasks.len() && (rank(co, k) >= b || k == -1) && #[trigger] sched[k] + tasks[k].duration
            >= ect_of(set_leaves(tasks, a0, lo, co, b, -1, tasks.len() as int));
    lemma_lct_order(tasks, a0, lo, co, b, k);
    assert(sched[k] <= tasks[k].start_times.view_ub(a0));
}

/// Under a schedule, the edge-finding rule holds: a task that cannot complete together
/// with theta from position `b` by the latest completion of theta's first task starts
/// after theta completes.
pub proof fn lemma_rule_holds(tasks: Seq<DisjunctiveTask>, a0: &Assignments, lo: Seq<usize>, co: Seq<usize>, b: int, i: int, sched: Seq<int>)
    requires
        ef_orders(tasks, a0, lo, co),
        feasible(tasks, a0, sched),
        0 <= b < tasks.len(),
        0 <= i < tasks.len(),
        rank(co, i) < b,
        theta_ect_with(tasks, a0, lo, co, b, i) > lct_of(tasks[co[b] as int], a0),
    ensures
        sched[i] >= theta_ect(tasks, a0, lo, co, b),
{
    lemma_set_completion(tasks, a0, lo, co, b, i, sched);
    let k = choose|k: int|
        0 <= k < tasks.len() && (rank(co, k) >= b || k == i) && #[trigger] sched[k] + tasks[k].duration
            >= ect_of(set_leaves(tasks, a0, lo, co, b, i, tasks.len() as int));
    if rank(co, k) >= b {
        lemma_lct_order(tasks, a0, lo, co, b, k);
        assert(sched[k] <= tasks[k].start_times.view_ub(a0));
        assert(false);
    }
    assert(k == i);
    lemma_set_completion(tasks, a0, lo, co, b, -1, sched);
    let k2 = choose|k: int|
        0 <= k < tasks.len() && (rank(co, k) >= b || k == -1) && #[trigger] sched[k] + tasks[k].duration
            >= ect_of(set_leaves(tasks, a0, lo, co, b, -1, tasks.len() as int));
    lemma_lct_order(tasks, a0, lo, co, b, k2);
    assert(sched[k2] <= tasks[k2].start_times.view_ub(a0));
    assert(k2 != i);
    lemma_task_leaf(task_pairs(tasks), a0, k2);
    assert(sched[i] + tasks[i].duration <= sched[k2] || sched[k2] + tasks[k2].duration <= sched[i]);
}

/// A pass of edge finding removes no schedule: if the tasks can start at `sched` within
/// the bounds `a0` without overlapping, the pass succeeds and `sched` is within the bounds
/// it leaves.
pub proof fn lemma_pass_keeps_schedules(
    tasks: Seq<DisjunctiveTask>,
    a0: &Assignments,
    a: &Assignments,
    r: Result<(), Inconsistency>,
    sched: Seq<int>,
)
    requires
        ef_pass(tasks, a0, a, r),
        feasible(tasks, a0, sched),
    ensures
        r is Ok,
        feasible(tasks, a, sched),
{
    let (lo, co) = choose|lo: Seq<usize>, co: Seq<usize>|
        {
            &&& #[trigger] ef_orders(tasks, a0, lo, co)
            &&& r is Ok ==> edge_finding_done(tasks, a0, a, lo, co)
            &&& match r {
                Err(Inconsistency::Conflict(reason)) => overload_found(tasks, a0, a, lo, co, reason@),
                Err(Inconsistency::EmptyDomain) => exists|b: int, i: int|
                    #[trigger] raise_overflows(tasks, a0, lo, co, b, i) && crate::disjunctive::no_overflow_before(tasks, a0, lo, co, b),
                _ => true,
            }
        };
    match r {
        Err(Inconsistency::Conflict(_)) => {
            let b = choose|b: int|
                0 <= b < tasks.len() - 1 && #[trigger] theta_ect(tasks, a0, lo, co, b) > lct_of(tasks[co[b] as int], a0);
            lemma_theta_fits(tasks, a0, lo, co, b, sched);
        },
        Err(Inconsistency::EmptyDomain) => {
            let (b, i) = choose|b: int, i: int| #[trigger] raise_overflows(tasks, a0, lo, co, b, i);
            lemma_rule_holds(tasks, a0, lo, co, b, i, sched);
            assert(sched[i] <= tasks[i].start_times.view_ub(a0));
        },
        Ok(()) => {
            assert(justified(tasks, a0, a, lo, co, tasks.len() - 1));
            assert forall|i: int| 0 <= i < tasks.len() implies tasks[i].start_times.view_lb(a) <= #[trigger] sched[i]
                <= tasks[i].start_times.view_ub(a) by {
                assert(ef_frame(tasks, a0, a));
                assert(tasks[i].start_times.view_ub(a) == tasks[i].start_times.view_ub(a0));
                if tasks[i].start_times.view_lb(a) != tasks[i].start_times.view_lb(a0) {
                    let b2 = choose|b2: int|
                        1 <= b2 <= tasks.len() - 1 && rank(co, i) < b2 && theta_ect_with(tasks, a0, lo, co, b2, i)
                            > lct_of(tasks[co[b2] as int], a0) && tasks[i].start_times.view_lb(a)
                            == #[trigger] theta_ect(tasks, a0, lo, co, b2);
                    lemma_rule_holds(tasks, a0, lo, co, b2, i, sched);
                }
            }
        },
    }
}

/// The starts of the mirrored tasks under the schedule `s`.
pub open spec fn mirrored_schedule(tasks: Seq<DisjunctiveTask>, s: Seq<int>) -> Seq<int> {
    Seq::new(s.len(), |i: int| -(s[i] + tasks[i].duration))
}

/// The bounds of a mirrored task are those of the task it mirrors, mirrored.
proof fn lemma_mirror_bounds(tasks: Seq<DisjunctiveTask>, rev: Seq<DisjunctiveTask>, a0: &Assignments, a: &Assignments)
    requires
        ef_tasks_ok(tasks, a0),
        mirrors(tasks, rev),
    ensures
        forall|i: int|
            0 <= i < tasks.len() ==> (#[trigger] rev[i]).start_times.view_lb(a) == -(tasks[i].start_times.view_ub(a)
                + tasks[i].duration) && rev[i].start_times.view_ub(a) == -(tasks[i].start_times.view_lb(a)
                + tasks[i].duration),
{
    let w = durations_of(task_pairs(tasks));
    assert forall|k: int| 0 <= k < w.len() implies #[trigger] w[k] >= 0 by {
        assert(tasks[k].start_times.valid(a0));
    }
    assert forall|i: int| 0 <= i < tasks.len() implies (#[trigger] rev[i]).start_times.view_lb(a) == -(
        tasks[i].start_times.view_ub(a) + tasks[i].duration) && rev[i].start_times.view_ub(a) == -(
        tasks[i].start_times.view_lb(a) + tasks[i].duration) by {
        assert(tasks[i].start_times.valid(a0));
        lemma_sum_member(w, i);
        assert(w[i] == tasks[i].duration);
        assert(-OFFSET_LIMIT <= tasks[i].start_times.offset <= OFFSET_LIMIT);
        assert(0 <= tasks[i].duration <= DOMAIN_LIMIT);
    }
}

/// Propagation removes no schedule. If the tasks can start at `s` within the bounds `a0`
/// with no two of them overlapping, then propagating from `a0` (as `propagate` and
/// `debug_propagate_from_scratch` do) succeeds, and `s` is within the bounds it leaves.
/// So a conflict or an emptied domain means that no such schedule exists.
pub proof fn lemma_propagation_keeps_schedules(
    p: &DisjunctivePropagator,
    a0: &Assignments,
    a: &Assignments,
    r: Result<(), Inconsistency>,
    s: Seq<int>,
)
    requires
        p.ready(a0),
        mirrors(p.tasks@, p.reverse_tasks@),
        propagated(p.tasks@, p.reverse_tasks@, a0, a, r),
        feasible(p.tasks@, a0, s),
    ensures
        r is Ok,
        feasible(p.tasks@, a, s),
{
    let tasks = p.tasks@;
    let rev = p.reverse_tasks@;
    if tasks.len() == 0 {
        // No task: nothing to schedule, and edge finding is never run.
        assert(!ef_pass(tasks, a0, a, r));
        assert(forall|mid: Assignments| !#[trigger] ef_pass(tasks, a0, &mid, Ok(())));
    } else if r is Err && ef_pass(tasks, a0, a, r) {
        lemma_pass_keeps_schedules(tasks, a0, a, r, s);
    } else {
        let mid = choose|mid: Assignments| ef_pass(tasks, a0, &mid, Ok(())) && #[trigger] ef_pass(rev, &mid, a, r);
        lemma_pass_keeps_schedules(tasks, a0, &mid, Ok(()), s);
        let ms = mirrored_schedule(tasks, s);
        lemma_mirror_bounds(tasks, rev, a0, &mid);
        lemma_mirror_bounds(tasks, rev, a0, a);
        assert forall|i: int, j: int|
            #![trigger ms[i], ms[j]]
            0 <= i < rev.len() && 0 <= j < rev.len() && i != j implies ms[i] + rev[i].duration <= ms[j] || ms[j]
                + rev[j].duration <= ms[i] by {
            assert(s[i] + tasks[i].duration <= s[j] || s[j] + tasks[j].duration <= s[i]);
        }
        assert forall|i: int| 0 <= i < rev.len() implies rev[i].start_times.view_lb(&mid) <= #[trigger] ms[i]
            <= rev[i].start_times.view_ub(&mid) by {
            assert(tasks[i].start_times.view_lb(&mid) <= s[i] <= tasks[i].start_times.view_ub(&mid));
        }
        assert(feasible(rev, &mid, ms));
        lemma_pass_keeps_schedules(rev, &mid, a, r, ms);
        assert forall|i: int| 0 <= i < tasks.len() implies tasks[i].start_times.view_lb(a) <= #[trigger] s[i]
            <= tasks[i].start_times.view_ub(a) by {
            assert(rev[i].start_times.view_lb(a) <= ms[i] <= rev[i].start_times.view_ub(a));
        }
    }
}

/// A leaf's duration in theta is at most theta's total.
proof fn lemma_sum_p_member(s: Seq<Node>, j: int)
    requires
        all_leaf_ok(s),
        0 <= j < s.len(),
    ensures
        s[j].sum_p <= sum_p_of(s),
{
    lemma_sum_p_split(s, j);
    lemma_sum_p_split(s, j + 1);
    assert(s.skip(j).drop_first() =~= s.skip(j + 1));
    assert(s.skip(j)[0] == s[j]);
}

/// Every task started at its lower bound.
pub open spec fn fixed_schedule(tasks: Seq<DisjunctiveTask>, a: &Assignments) -> Seq<int> {
    Seq::new(tasks.len(), |i: int| tasks[i].start_times.view_lb(a))
}

/// Every task has a single start time left.
pub open spec fn all_fixed(tasks: Seq<DisjunctiveTask>, a: &Assignments) -> bool {
    forall|i: int|
        0 <= i < tasks.len() ==> (#[trigger] tasks[i]).start_times.view_lb(a) == tasks[i].start_times.view_ub(a)
}

/// After a successful pass of edge finding, fixed tasks do not overlap: two tasks of
/// positive duration that overlap make a theta overloaded, and a task of no duration
/// inside another makes the edge-finding rule push the other past it.
pub proof fn lemma_fixed_pass_no_overlap(
    tasks: Seq<DisjunctiveTask>,
    a0: &Assignments,
    a: &Assignments,
    lo: Seq<usize>,
    co: Seq<usize>,
)
    requires
        ef_orders(tasks, a0, lo, co),
        edge_finding_done(tasks, a0, a, lo, co),
        ef_frame(tasks, a0, a),
        all_fixed(tasks, a0),
    ensures
        feasible(tasks, a0, fixed_schedule(tasks, a0)),
{
    lemma_orders(tasks, a0, lo, co);
    a.lemma_bounds();
    let sch = fixed_schedule(tasks, a0);
    let n = tasks.len() as int;
    let keys = lb_keys(task_pairs(tasks), a0);
    assert forall|x: int, y: int|
        #![trigger sch[x], sch[y]]
        0 <= x < n && 0 <= y < n && x != y implies sch[x] + tasks[x].duration <= sch[y] || sch[y]
            + tasks[y].duration <= sch[x] by {
        // Name the pair so that `i` comes first among the leaves.
        let (i, k) = if rank(lo, x) < rank(lo, y) { (x, y) } else { (y, x) };
        let qi = rank(lo, i);
        let qk = rank(lo, k);
        assert(lo[qi] == i && lo[qk] == k);
        assert(qi != qk);
        assert(key_before(keys, lo[qi] as int, lo[qk] as int));
        lemma_task_leaf(task_pairs(tasks), a0, i);
        lemma_task_leaf(task_pairs(tasks), a0, k);
        if !(sch[i] + tasks[i].duration <= sch[k] || sch[k] + tasks[k].duration <= sch[i]) {
            if tasks[k].duration > 0 {
                let b = if rank(co, i) < rank(co, k) { rank(co, i) } else { rank(co, k) };
                let s = set_leaves(tasks, a0, lo, co, b, -1, n);
                lemma_set_leaves_ok(tasks, a0, lo, co, b, -1, n);
                assert(s[qi] == task_leaf(task_pairs(tasks)[i], a0));
                assert(s[qk] == task_leaf(task_pairs(tasks)[k], a0));
                let u = s.skip(qi + 1);
                lemma_leaf_ok_subrange(s, qi + 1, n);
                assert(u =~= s.subrange(qi + 1, n));
                assert(u[qk - qi - 1] == s[qk]);
                lemma_sum_p_member(u, qk - qi - 1);
                lemma_term_le_ect(s, qi);
                assert(theta_ect(tasks, a0, lo, co, b) >= sch[i] + tasks[i].duration + tasks[k].duration);
                lemma_lct_order(tasks, a0, lo, co, b, i);
                lemma_lct_order(tasks, a0, lo, co, b, k);
                assert(co[b] as int == i || co[b] as int == k);
                assert(theta_ect(tasks, a0, lo, co, b) <= lct_of(tasks[co[b] as int], a0));
                assert(false);
            } else {
                // Task `k` takes no time and sits strictly inside task `i`.
                let b = rank(co, k);
                assert(co[b] as int == k);
                if rank(co, i) > b {
                    lemma_lct_order(tasks, a0, lo, co, b, i);
                }
                assert(rank(co, i) != b);
                let s2 = set_leaves(tasks, a0, lo, co, b, i, n);
                lemma_set_leaves_ok(tasks, a0, lo, co, b, i, n);
                assert(s2[qi] == task_leaf(task_pairs(tasks)[i], a0));
                lemma_sum_p_split(s2, qi + 1);
                lemma_term_le_ect(s2, qi);
                assert(theta_ect_with(tasks, a0, lo, co, b, i) > lct_of(tasks[co[b] as int], a0));
                let s = set_leaves(tasks, a0, lo, co, b, -1, n);
                lemma_set_leaves_ok(tasks, a0, lo, co, b, -1, n);
                assert(s[qk] == task_leaf(task_pairs(tasks)[k], a0));
                lemma_sum_p_split(s, qk + 1);
                lemma_term_le_ect(s, qk);
                assert(theta_ect(tasks, a0, lo, co, b) >= sch[k]);
                assert(edge_found(tasks, a0, a, lo, co, b));
                assert(tasks[i].start_times.view_lb(a) >= theta_ect(tasks, a0, lo, co, b));
                assert(tasks[i].start_times.valid(a0));
                assert(tasks[i].start_times.view_ub(a) == tasks[i].start_times.view_ub(a0));
                assert(false);
            }
        }
    }
}

/// Fixed tasks are decided exactly: when every task has a single start time left,
/// propagation succeeds if and only if no two tasks overlap.
pub proof fn lemma_fixed_tasks_decided(
    p: &DisjunctivePropagator,
    a0: &Assignments,
    a: &Assignments,
    r: Result<(), Inconsistency>,
)
    requires
        p.ready(a0),
        mirrors(p.tasks@, p.reverse_tasks@),
        propagated(p.tasks@, p.reverse_tasks@, a0, a, r),
        all_fixed(p.tasks@, a0),
    ensures
        r is Ok <==> feasible(p.tasks@, a0, fixed_schedule(p.tasks@, a0)),
{
    let tasks = p.tasks@;
    if feasible(tasks, a0, fixed_schedule(tasks, a0)) {
        lemma_propagation_keeps_schedules(p, a0, a, r, fixed_schedule(tasks, a0));
    }
    if tasks.len() == 0 {
        assert(feasible(tasks, a0, fixed_schedule(tasks, a0)));
    } else if r is Ok {
        let mid = choose|mid: Assignments| ef_pass(tasks, a0, &mid, Ok(())) && #[trigger] ef_pass(p.reverse_tasks@, &mid, a, r);
        let (lo, co) = choose|lo: Seq<usize>, co: Seq<usize>|
            #[trigger] ef_orders(tasks, a0, lo, co) && edge_finding_done(tasks, a0, &mid, lo, co);
        lemma_fixed_pass_no_overlap(tasks, a0, &mid, lo, co);
    }
}

/// The window of an overload explanation is not the widened one: that one, taken when the
/// first kept task may start before zero and the upper end lies above zero, stretches
/// further than the kept tasks' total duration.
pub open spec fn window_exact(est: int, lct: int, delta: int) -> bool {
    let ol0 = half_toward_zero(delta);
    let ol1 = if est >= 0 && est - ol0 < 0 {
        est
    } else {
        ol0
    };
    !(est < 0 && lct + (delta - ol1) > 0)
}

proof fn lemma_active_suffix(t: Seq<(IntVar, i32, bool)>, x: Seq<(int, int)>, act: Seq<bool>, k0: int, q: int)
    requires
        x.len() == t.len(),
        act.len() == t.len(),
        0 <= k0 <= q <= t.len(),
        forall|k: int| 0 <= k < t.len() ==> (#[trigger] x[k]).1 == t[k].1,
        forall|k: int| 0 <= k < t.len() ==> #[trigger] act[k] == (k >= k0),
    ensures
        active_sum(x, act, q) == suffix_p(t, q),
    decreases t.len() - q,
{
    if q < t.len() {
        lemma_active_suffix(t, x, act, k0, q + 1);
        assert(t.skip(q).drop_first() =~= t.skip(q + 1));
        assert(t.skip(q)[0] == t[q]);
    } else {
        assert(t.skip(q).len() == 0);
    }
}

/// Tasks from entry `k0` on that run at `sigma` without overlap do not all fit inside a
/// window `[lo, hi]` shorter than their total duration.
pub proof fn lemma_window_too_small(t: Seq<(IntVar, i32, bool)>, k0: int, lo: int, hi: int, sigma: Seq<int>)
    requires
        0 <= k0 < t.len(),
        sigma.len() == t.len(),
        forall|k: int| 0 <= k < t.len() ==> (#[trigger] t[k]).1 >= 0,
        hi - lo < suffix_p(t, k0),
        forall|k: int, k2: int|
            #![trigger sigma[k], sigma[k2]]
            k0 <= k < t.len() && k0 <= k2 < t.len() && k != k2 ==> sigma[k] + t[k].1 <= sigma[k2] || sigma[k2]
                + t[k2].1 <= sigma[k],
    ensures
        exists|k: int| k0 <= k < t.len() && !(lo <= #[trigger] sigma[k] && sigma[k] + t[k].1 <= hi),
{
    if forall|k: int| k0 <= k < t.len() ==> lo <= #[trigger] sigma[k] && sigma[k] + t[k].1 <= hi {
        lemma_window_packed(t, k0, lo, hi, sigma);
    }
}

proof fn lemma_window_packed(t: Seq<(IntVar, i32, bool)>, k0: int, lo: int, hi: int, sigma: Seq<int>)
    requires
        0 <= k0 < t.len(),
        sigma.len() == t.len(),
        forall|k: int| 0 <= k < t.len() ==> (#[trigger] t[k]).1 >= 0,
        forall|k: int| k0 <= k < t.len() ==> lo <= #[trigger] sigma[k] && sigma[k] + t[k].1 <= hi,
        forall|k: int, k2: int|
            #![trigger sigma[k], sigma[k2]]
            k0 <= k < t.len() && k0 <= k2 < t.len() && k != k2 ==> sigma[k] + t[k].1 <= sigma[k2] || sigma[k2]
                + t[k2].1 <= sigma[k],
    ensures
        hi - lo >= suffix_p(t, k0),
{
    let x = Seq::new(t.len(), |k: int| (sigma[k], t[k].1 as int));
    let act = Seq::new(t.len(), |k: int| k >= k0);
    lemma_active_suffix(t, x, act, k0, k0);
    lemma_inactive_prefix(x, act, k0, 0);
    assert forall|i: int| 0 <= i < x.len() && #[trigger] act[i] implies x[i].1 >= 0 && x[i].0 >= lo by {
        assert(lo <= sigma[i]);
    }
    assert forall|i: int, j: int|
        #![trigger act[i], act[j]]
        0 <= i < x.len() && 0 <= j < x.len() && i != j && act[i] && act[j] implies x[i].0 + x[i].1 <= x[j].0
            || x[j].0 + x[j].1 <= x[i].0 by {
        assert(sigma[i] + t[i].1 <= sigma[j] || sigma[j] + t[j].1 <= sigma[i]);
    }
    assert(act[k0]);
    lemma_packing(x, act, lo);
    let k = choose|i: int| 0 <= i < x.len() && #[trigger] act[i] && x[i].0 + x[i].1 >= lo + active_sum(x, act, 0);
    assert(sigma[k] + t[k].1 <= hi);
}

/// An overload explanation is valid. Given the theta list `t` in order of earliest start,
/// with non-negative durations, every task completing by `lct`, and some run of it
/// overrunning `lct`: each literal of the explanation `r` holds under the bounds `a`, and
/// the window it gives the kept tasks (from entry `k0` on) is one shorter than their total
/// duration, so that with `lemma_window_too_small` no schedule meets the literals. This
/// holds except for the widened window (see `window_exact`).
pub proof fn lemma_overload_reason_valid(
    t: Seq<(IntVar, i32, bool)>,
    a: &Assignments,
    lct: int,
    k0: int,
    r: Seq<Predicate>,
)
    requires
        forall|k: int| 0 <= k < t.len() ==> (#[trigger] t[k]).1 >= 0,
        forall|k: int, k2: int|
            #![trigger t[k], t[k2]]
            0 <= k <= k2 < t.len() ==> t[k].0.view_lb(a) <= t[k2].0.view_lb(a),
        forall|k: int| 0 <= k < t.len() ==> (#[trigger] t[k]).0.view_ub(a) + t[k].1 <= lct,
        exists|k: int| 0 <= k < t.len() && #[trigger] overload_delta(t, a, lct, k) >= 0,
        overload_start(t, a, lct, k0),
        overload_reason(r, t, a, lct, k0),
        window_exact(t[k0].0.view_lb(a), lct, overload_delta(t, a, lct, k0)),
    ensures
        ({
            let w = overload_window(t[k0].0.view_lb(a), lct, overload_delta(t, a, lct, k0));
            &&& forall|k: int|
                k0 <= k < t.len() ==> w.0 <= (#[trigger] t[k]).0.view_lb(a) && t[k].0.view_ub(a) <= w.1 - t[k].1
            &&& w.1 - w.0 == suffix_p(t, k0) - 1
        }),
{
    let est = t[k0].0.view_lb(a);
    let delta = overload_delta(t, a, lct, k0);
    let k1 = choose|k: int| 0 <= k < t.len() && #[trigger] overload_delta(t, a, lct, k) >= 0;
    if k1 < k0 {
        assert(overload_delta(t, a, lct, k1) < 0);
    }
    assert(delta >= 0);
    let w = overload_window(est, lct, delta);
    assert forall|k: int| k0 <= k < t.len() implies w.0 <= (#[trigger] t[k]).0.view_lb(a) && t[k].0.view_ub(a)
        <= w.1 - t[k].1 by {
        assert(t[k0].0.view_lb(a) <= t[k].0.view_lb(a));
    }
}

/// The lower end that an edge-finding explanation gives entry `it` of the theta list:
/// the smaller of the raised task's lower bound `cl` and omega's first start for omega,
/// and at least where omega' must start for omega' (from entry `j` on).
pub open spec fn ef_lower(t: Seq<(IntVar, i32, bool)>, a: &Assignments, cl: int, new_lb: int, i: int, j: int, it: int) -> int {
    let rr = min2(cl, t[i].0.view_lb(a));
    if it < j {
        rr
    } else {
        crate::tree_spec::max2(new_lb - suffix_p(t, j), rr)
    }
}

/// The latest start that an edge-finding explanation gives entry `it` of the theta list.
pub open spec fn ef_upper(t: Seq<(IntVar, i32, bool)>, a: &Assignments, cl: int, p: int, i: int, it: int) -> int {
    min2(cl, t[i].0.view_lb(a)) + suffix_p(t, i) + p - 1 - t[it].1
}

/// The literals of an edge-finding explanation hold under the bounds it was computed from.
/// Given the theta list `t` in order of earliest start, every task of it completing by
/// `lct`, omega from entry `i` and omega' from entry `j` as the explanation chooses them,
/// and the raise to theta's completion time `new_lb`: every kept task lies within its
/// lower and latest start, and the raised task (lower bound `cl`) starts at or after the
/// lower end of omega. `ef_reason` writes exactly these bounds as the literals.
pub proof fn lemma_ef_reason_holds(
    t: Seq<(IntVar, i32, bool)>,
    a: &Assignments,
    cl: int,
    p: int,
    lct: int,
    new_lb: int,
    i: int,
    j: int,
)
    requires
        forall|k: int, k2: int|
            #![trigger t[k], t[k2]]
            0 <= k <= k2 < t.len() ==> t[k].0.view_lb(a) <= t[k2].0.view_lb(a),
        forall|k: int| 0 <= k < t.len() ==> (#[trigger] t[k]).0.view_ub(a) + t[k].1 <= lct,
        ef_omega_start(t, a, cl, p, lct, i),
        ef_omega_prime_start(t, a, new_lb, i, j),
    ensures
        forall|it: int|
            i <= it < t.len() ==> ef_lower(t, a, cl, new_lb, i, j, it) <= (#[trigger] t[it]).0.view_lb(a)
                && t[it].0.view_ub(a) <= ef_upper(t, a, cl, p, i, it),
        min2(cl, t[i].0.view_lb(a)) <= cl,
{
    assert(ef_delta(t, a, cl, p, i) > lct);
    assert(run_end(t, a, j) == new_lb);
    assert forall|it: int| i <= it < t.len() implies ef_lower(t, a, cl, new_lb, i, j, it) <= (
    #[trigger] t[it]).0.view_lb(a) && t[it].0.view_ub(a) <= ef_upper(t, a, cl, p, i, it) by {
        assert(t[i].0.view_lb(a) <= t[it].0.view_lb(a));
        if it >= j {
            assert(t[j].0.view_lb(a) <= t[it].0.view_lb(a));
        }
    }
}

proof fn lemma_active_suffix_with(t: Seq<(IntVar, i32, bool)>, x: Seq<(int, int)>, act: Seq<bool>, p: int, i: int, q: int)
    requires
        x.len() == t.len() + 1,
        act.len() == t.len() + 1,
        0 <= i <= q <= t.len(),
        forall|k: int| 0 <= k < t.len() ==> (#[trigger] x[k]).1 == t[k].1,
        x[t.len() as int].1 == p,
        forall|k: int| 0 <= k <= t.len() ==> #[trigger] act[k] == (k >= i),
    ensures
        active_sum(x, act, q) == suffix_p(t, q) + p,
    decreases t.len() - q,
{
    if q < t.len() {
        lemma_active_suffix_with(t, x, act, p, i, q + 1);
        assert(t.skip(q).drop_first() =~= t.skip(q + 1));
        assert(t.skip(q)[0] == t[q]);
    } else {
        assert(t.skip(q).len() == 0);
        assert(active_sum(x, act, q + 1) == 0);
    }
}

/// An edge-finding explanation justifies its raise. When the tasks of the theta list from
/// entry `i` on start at `sigma` and the raised task (duration `p`) at `sc`, within the
/// bounds of the explanation's literals and with no two of them overlapping, the raised
/// task starts at `new_lb` or later.
pub proof fn lemma_ef_reason_justifies(
    t: Seq<(IntVar, i32, bool)>,
    a: &Assignments,
    cl: int,
    p: int,
    new_lb: int,
    i: int,
    j: int,
    sigma: Seq<int>,
    sc: int,
)
    requires
        forall|k: int| 0 <= k < t.len() ==> (#[trigger] t[k]).1 >= 0,
        p >= 0,
        0 <= i <= j < t.len(),
        sigma.len() == t.len(),
        forall|it: int|
            i <= it < t.len() ==> ef_lower(t, a, cl, new_lb, i, j, it) <= #[trigger] sigma[it] && sigma[it]
                <= ef_upper(t, a, cl, p, i, it),
        min2(cl, t[i].0.view_lb(a)) <= sc,
        forall|k: int, k2: int|
            #![trigger sigma[k], sigma[k2]]
            i <= k < t.len() && i <= k2 < t.len() && k != k2 ==> sigma[k] + t[k].1 <= sigma[k2] || sigma[k2]
                + t[k2].1 <= sigma[k],
        forall|k: int| i <= k < t.len() ==> #[trigger] sigma[k] + t[k].1 <= sc || sc + p <= sigma[k],
    ensures
        sc >= new_lb,
{
    let rr = min2(cl, t[i].0.view_lb(a));
    let n = t.len() as int;
    if sc < new_lb {
        // Omega' alone already reaches `new_lb`: one of its tasks ends there or later.
        let w = Seq::new(n as nat, |k: int| (sigma[k], t[k].1 as int));
        let actp = Seq::new(n as nat, |k: int| k >= j);
        lemma_active_suffix(t, w, actp, j, j);
        lemma_inactive_prefix(w, actp, j, 0);
        assert forall|k: int| 0 <= k < w.len() && #[trigger] actp[k] implies w[k].1 >= 0 && w[k].0 >= new_lb - suffix_p(
            t,
            j,
        ) by {
            assert(ef_lower(t, a, cl, new_lb, i, j, k) <= sigma[k]);
        }
        assert forall|k: int, k2: int|
            #![trigger actp[k], actp[k2]]
            0 <= k < w.len() && 0 <= k2 < w.len() && k != k2 && actp[k] && actp[k2] implies w[k].0 + w[k].1 <= w[k2].0
                || w[k2].0 + w[k2].1 <= w[k].0 by {
            assert(sigma[k] + t[k].1 <= sigma[k2] || sigma[k2] + t[k2].1 <= sigma[k]);
        }
        assert(actp[j]);
        lemma_packing(w, actp, new_lb - suffix_p(t, j));
        let ks = choose|k: int| 0 <= k < w.len() && #[trigger] actp[k] && w[k].0 + w[k].1 >= new_lb - suffix_p(t, j)
            + active_sum(w, actp, 0);
        // That task cannot end before the raised task starts, so the raised task comes
        // first and, with omega, fits in a window shorter than their total duration.
        assert(sc + p <= sigma[ks]);
        let x = Seq::new((n + 1) as nat, |k: int| if k < n { (sigma[k], t[k].1 as int) } else { (sc, p) });
        let act = Seq::new((n + 1) as nat, |k: int| k >= i);
        lemma_active_suffix_with(t, x, act, p, i, i);
        lemma_inactive_prefix(x, act, i, 0);
        assert forall|k: int| 0 <= k < x.len() && #[trigger] act[k] implies x[k].1 >= 0 && x[k].0 >= rr by {
            if k < n {
                assert(ef_lower(t, a, cl, new_lb, i, j, k) <= sigma[k]);
            }
        }
        assert forall|k: int, k2: int|
            #![trigger act[k], act[k2]]
            0 <= k < x.len() && 0 <= k2 < x.len() && k != k2 && act[k] && act[k2] implies x[k].0 + x[k].1 <= x[k2].0
                || x[k2].0 + x[k2].1 <= x[k].0 by {
            if k < n && k2 < n {
                assert(sigma[k] + t[k].1 <= sigma[k2] || sigma[k2] + t[k2].1 <= sigma[k]);
            } else if k < n {
                assert(sigma[k] + t[k].1 <= sc || sc + p <= sigma[k]);
            } else {
                assert(sigma[k2] + t[k2].1 <= sc || sc + p <= sigma[k2]);
            }
        }
        assert(act[i]);
        lemma_packing(x, act, rr);
        let kk = choose|k: int| 0 <= k < x.len() && #[trigger] act[k] && x[k].0 + x[k].1 >= rr + active_sum(x, act, 0);
        if kk < n {
            assert(sigma[kk] <= ef_upper(t, a, cl, p, i, kk));
        } else {
            assert(sigma[ks] <= ef_upper(t, a, cl, p, i, ks));
        }
    }
}

/// A pass of edge finding fails exactly when some theta (the tasks from a position of the
/// order by decreasing latest completion on) is overloaded, or the edge-finding rule asks
/// some task to start after its latest start. The orders `lo` and `co` are the ones the
/// pass uses: a stable order is unique.
pub proof fn lemma_pass_fails_iff(
    tasks: Seq<DisjunctiveTask>,
    a0: &Assignments,
    a: &Assignments,
    r: Result<(), Inconsistency>,
    lo: Seq<usize>,
    co: Seq<usize>,
)
    requires
        ef_pass(tasks, a0, a, r),
        ef_orders(tasks, a0, lo, co),
    ensures
        r is Err <==> (exists|b: int| 0 <= b < tasks.len() && #[trigger] theta_ect(tasks, a0, lo, co, b) > lct_of(
            tasks[co[b] as int],
            a0,
        )) || (exists|b: int, i: int| #[trigger] raise_overflows(tasks, a0, lo, co, b, i)),
{
    let (lo2, co2) = choose|lo2: Seq<usize>, co2: Seq<usize>|
        {
            &&& #[trigger] ef_orders(tasks, a0, lo2, co2)
            &&& r is Ok ==> edge_finding_done(tasks, a0, a, lo2, co2)
            &&& match r {
                Err(Inconsistency::Conflict(reason)) => overload_found(tasks, a0, a, lo2, co2, reason@),
                Err(Inconsistency::EmptyDomain) => exists|b: int, i: int|
                    #[trigger] raise_overflows(tasks, a0, lo2, co2, b, i) && crate::disjunctive::no_overflow_before(
                        tasks,
                        a0,
                        lo2,
                        co2,
                        b,
                    ),
                _ => true,
            }
        };
    crate::sorting::lemma_stable_order_unique(lo, lo2, lb_keys(task_pairs(tasks), a0));
    crate::sorting::lemma_stable_order_unique(co, co2, lct_keys(tasks, a0));
    match r {
        Err(Inconsistency::Conflict(_)) => {
            let b = choose|b: int|
                0 <= b < tasks.len() - 1 && #[trigger] theta_ect(tasks, a0, lo, co, b) > lct_of(tasks[co[b] as int], a0);
            assert(0 <= b < tasks.len());
        },
        Err(Inconsistency::EmptyDomain) => {},
        Ok(()) => {
            assert(no_overload_before(tasks, a0, lo, co, tasks.len() as int));
            assert(ef_frame(tasks, a0, a));
            lemma_no_overflow_before(tasks, a0, a, lo, co, tasks.len() as int);
            assert forall|b: int, i: int| !#[trigger] raise_overflows(tasks, a0, lo, co, b, i) by {
                if raise_overflows(tasks, a0, lo, co, b, i) {
                    assert(b < tasks.len());
                }
            }
        },
    }
}

/// Task `k` runs at time `t` under the schedule `s`: from its start, for its duration.
pub open spec fn runs_at(tasks: Seq<DisjunctiveTask>, s: Seq<int>, t: int, k: int) -> bool {
    s[k] <= t < s[k] + tasks[k].duration
}

/// How many of the tasks from entry `k` on run at time `t` under the schedule `s`.
pub open spec fn running_at(tasks: Seq<DisjunctiveTask>, s: Seq<int>, t: int, k: int) -> int
    decreases tasks.len() - k,
{
    if k < 0 || k >= tasks.len() {
        0
    } else {
        (if runs_at(tasks, s, t, k) {
            1int
        } else {
            0int
        }) + running_at(tasks, s, t, k + 1)
    }
}

/// The cumulative constraint with capacity one: at every time at most one task runs.
pub open spec fn within_capacity_one(tasks: Seq<DisjunctiveTask>, s: Seq<int>) -> bool {
    forall|t: int| #[trigger] running_at(tasks, s, t, 0) <= 1
}

/// The disjunctive constraint: no two tasks overlap.
pub open spec fn no_overlap(tasks: Seq<DisjunctiveTask>, s: Seq<int>) -> bool {
    forall|i: int, j: int|
        #![trigger s[i], s[j]]
        0 <= i < tasks.len() && 0 <= j < tasks.len() && i != j ==> s[i] + tasks[i].duration <= s[j] || s[j]
            + tasks[j].duration <= s[i]
}

proof fn lemma_running_nonneg(tasks: Seq<DisjunctiveTask>, s: Seq<int>, t: int, k: int)
    ensures
        running_at(tasks, s, t, k) >= 0,
    decreases tasks.len() - k,
{
    if 0 <= k < tasks.len() {
        lemma_running_nonneg(tasks, s, t, k + 1);
    }
}

proof fn lemma_running_none(tasks: Seq<DisjunctiveTask>, s: Seq<int>, t: int, k: int)
    requires
        forall|i: int| k <= i < tasks.len() ==> !#[trigger] runs_at(tasks, s, t, i),
    ensures
        running_at(tasks, s, t, k) == 0,
    decreases tasks.len() - k,
{
    if 0 <= k < tasks.len() {
        assert(!runs_at(tasks, s, t, k));
        lemma_running_none(tasks, s, t, k + 1);
    }
}

proof fn lemma_running_single(tasks: Seq<DisjunctiveTask>, s: Seq<int>, t: int, k: int)
    requires
        0 <= k,
        forall|i: int, j: int|
            k <= i < j < tasks.len() ==> !(#[trigger] runs_at(tasks, s, t, i) && #[trigger] runs_at(tasks, s, t, j)),
    ensures
        running_at(tasks, s, t, k) <= 1,
    decreases tasks.len() - k,
{
    if k < tasks.len() {
        if runs_at(tasks, s, t, k) {
            assert forall|i: int| k + 1 <= i < tasks.len() implies !#[trigger] runs_at(tasks, s, t, i) by {
                assert(!(runs_at(tasks, s, t, k) && runs_at(tasks, s, t, i)));
            }
            lemma_running_none(tasks, s, t, k + 1);
        } else {
            lemma_running_single(tasks, s, t, k + 1);
        }
    }
}

proof fn lemma_running_two(tasks: Seq<DisjunctiveTask>, s: Seq<int>, t: int, k: int, i: int, j: int)
    requires
        0 <= k <= i < j < tasks.len(),
        runs_at(tasks, s, t, i),
        runs_at(tasks, s, t, j),
    ensures
        running_at(tasks, s, t, k) >= 2,
    decreases j - k,
{
    if k < i {
        lemma_running_two(tasks, s, t, k + 1, i, j);
    } else {
        lemma_running_one(tasks, s, t, k + 1, j);
    }
}

/// Task `j`, at entry `k` or later, runs at `t`: at least one task from entry `k` on does.
proof fn lemma_running_one(tasks: Seq<DisjunctiveTask>, s: Seq<int>, t: int, k: int, j: int)
    requires
        0 <= k <= j < tasks.len(),
        runs_at(tasks, s, t, j),
    ensures
        running_at(tasks, s, t, k) >= 1,
    decreases j - k,
{
    lemma_running_nonneg(tasks, s, t, k + 1);
    if k < j {
        lemma_running_one(tasks, s, t, k + 1, j);
    }
}

/// The disjunctive constraint is the cumulative constraint with capacity one: a schedule
/// in which no two tasks overlap runs at most one task at any time; and where every
/// duration is positive, a schedule that runs at most one task at any time has no two
/// tasks overlapping. (A task of duration zero runs at no time, so it may start inside
/// another task under capacity one, which `no_overlap` forbids.)
pub proof fn lemma_capacity_one(tasks: Seq<DisjunctiveTask>, s: Seq<int>)
    requires
        s.len() == tasks.len(),
    ensures
        no_overlap(tasks, s) ==> within_capacity_one(tasks, s),
        (forall|i: int| 0 <= i < tasks.len() ==> #[trigger] tasks[i].duration > 0) ==> (within_capacity_one(tasks, s)
            ==> no_overlap(tasks, s)),
{
    if no_overlap(tasks, s) {
        assert forall|t: int| #[trigger] running_at(tasks, s, t, 0) <= 1 by {
            assert forall|i: int, j: int| 0 <= i < j < tasks.len() implies !(#[trigger] runs_at(tasks, s, t, i)
                && #[trigger] runs_at(tasks, s, t, j)) by {
                assert(s[i] + tasks[i].duration <= s[j] || s[j] + tasks[j].duration <= s[i]);
            }
            lemma_running_single(tasks, s, t, 0);
        }
    }
    if (forall|i: int| 0 <= i < tasks.len() ==> #[trigger] tasks[i].duration > 0) && within_capacity_one(tasks, s) {
        assert forall|i: int, j: int|
            #![trigger s[i], s[j]]
            0 <= i < tasks.len() && 0 <= j < tasks.len() && i != j implies s[i] + tasks[i].duration <= s[j] || s[j]
                + tasks[j].duration <= s[i] by {
            if !(s[i] + tasks[i].duration <= s[j] || s[j] + tasks[j].duration <= s[i]) {
                let t = if s[i] <= s[j] {
                    s[j]
                } else {
                    s[i]
                };
                assert(tasks[i].duration > 0 && tasks[j].duration > 0);
                assert(runs_at(tasks, s, t, i) && runs_at(tasks, s, t, j));
                if i < j {
                    lemma_running_two(tasks, s, t, 0, i, j);
                } else {
                    lemma_running_two(tasks, s, t, 0, j, i);
                }
                assert(running_at(tasks, s, t, 0) <= 1);
            }
        }
    }
}

/// Every literal of an edge-finding explanation holds under the bounds it was computed
/// from. Take a tree whose white leaves have their earliest starts as lower bounds, every
/// task of theta completing by `lct`, and a raise of `curr_task` to theta's completion
/// time `new_lb`; whatever `compute_edge_finding_explanations` returns for them, each of
/// its literals, a bound on a task of omega or on `curr_task`, is met by the current
/// bounds of its domain.
pub proof fn lemma_ef_explanation_holds(
    tree: &ThetaLambdaTree,
    curr_task: IntVar,
    curr_task_p: int,
    new_lb: int,
    context: &Assignments,
    lct: int,
    r: Seq<Predicate>,
)
    requires
        tree.wf(),
        context.wf(),
        white_lbs_ok(tree, context),
        curr_task.valid(context),
        0 <= curr_task_p <= TREE_LIMIT,
        new_lb == ect_of(tree.leaves()),
        forall|k: int|
            0 <= k < theta_entries(tree.leaves()).len() ==> (#[trigger] theta_entries(tree.leaves())[k]).0.view_ub(context)
                + theta_entries(tree.leaves())[k].1 <= lct,
        exists|i: int, j: int|
            {
                &&& ef_omega_start(
                    theta_entries(tree.leaves()),
                    context,
                    curr_task.view_lb(context),
                    curr_task_p,
                    lct,
                    i,
                )
                &&& ef_omega_prime_start(theta_entries(tree.leaves()), context, ect_of(tree.leaves()), i, j)
                &&& #[trigger] ef_reason(
                    r,
                    theta_entries(tree.leaves()),
                    context,
                    curr_task.view_lb(context),
                    curr_task,
                    curr_task_p,
                    new_lb,
                    i,
                    j,
                )
            },
    ensures
        forall|m: int| 0 <= m < r.len() ==> (#[trigger] r[m]).holds_in(context),
{
    let t = theta_entries(tree.leaves());
    let cl = curr_task.view_lb(context);
    let p = curr_task_p;
    let (i, j) = choose|i: int, j: int|
        {
            &&& ef_omega_start(t, context, cl, p, lct, i)
            &&& ef_omega_prime_start(t, context, ect_of(tree.leaves()), i, j)
            &&& #[trigger] ef_reason(r, t, context, cl, curr_task, p, new_lb, i, j)
        };
    context.lemma_bounds();
    lemma_theta_sum(tree);
    lemma_theta_sorted(tree, context);
    lemma_ef_reason_holds(t, context, cl, p, lct, new_lb, i, j);
    lemma_theta_entry(tree, context, i);
    let rr = min2(cl, t[i].0.view_lb(context));
    assert(-TREE_LIMIT <= cl <= TREE_LIMIT);
    assert forall|m: int| 0 <= m < r.len() implies (#[trigger] r[m]).holds_in(context) by {
        if m == r.len() - 1 {
            lemma_bound_predicates_mean(curr_task, rr, Seq::empty(), context);
        } else {
            let h = m / 2;
            assert(0 <= h < t.len() - i);
            let it = i + h;
            assert(r[2 * (it - i)] == t[it].0.lower_bound_predicate_spec(ef_lower(t, context, cl, new_lb, i, j, it)));
            assert(r[2 * (it - i) + 1] == t[it].0.upper_bound_predicate_spec(ef_upper(t, context, cl, p, i, it)));
            lemma_theta_entry(tree, context, it);
            lemma_theta_entry(tree, context, j);
            let lo = ef_lower(t, context, cl, new_lb, i, j, it);
            let hi = ef_upper(t, context, cl, p, i, it);
            assert(lo <= t[it].0.view_lb(context) && t[it].0.view_ub(context) <= hi);
            assert(rr <= lo);
            assert(t[it].0.view_lb(context) <= t[it].0.view_ub(context));
            assert(suffix_p(t, i) <= TREE_LIMIT);
            lemma_bound_predicates_mean(t[it].0, lo, Seq::empty(), context);
            lemma_bound_predicates_mean(t[it].0, hi, Seq::empty(), context);
            if m % 2 == 0 {
                assert(m == 2 * (it - i));
            } else {
                assert(m == 2 * (it - i) + 1);
            }
        }
    }
}

/// An edge-finding explanation justifies its raise. For the explanation `r` that
/// `compute_edge_finding_explanations` gives for raising `curr_task` to theta's completion
/// time `new_lb`: at any values of the domains that meet every literal of `r` and under
/// which no two of the tasks of theta and `curr_task` overlap, `curr_task` starts at
/// `new_lb` or later.
pub proof fn lemma_ef_explanation_justifies(
    tree: &ThetaLambdaTree,
    curr_task: IntVar,
    curr_task_p: int,
    new_lb: int,
    context: &Assignments,
    lct: int,
    r: Seq<Predicate>,
    vals: Seq<int>,
)
    requires
        tree.wf(),
        context.wf(),
        white_lbs_ok(tree, context),
        curr_task.valid(context),
        0 <= curr_task_p <= TREE_LIMIT,
        new_lb == ect_of(tree.leaves()),
        exists|i: int, j: int|
            {
                &&& ef_omega_start(
                    theta_entries(tree.leaves()),
                    context,
                    curr_task.view_lb(context),
                    curr_task_p,
                    lct,
                    i,
                )
                &&& ef_omega_prime_start(theta_entries(tree.leaves()), context, ect_of(tree.leaves()), i, j)
                &&& #[trigger] ef_reason(
                    r,
                    theta_entries(tree.leaves()),
                    context,
                    curr_task.view_lb(context),
                    curr_task,
                    curr_task_p,
                    new_lb,
                    i,
                    j,
                )
            },
        all_met(r, vals),
        forall|k: int, k2: int|
            0 <= k < theta_entries(tree.leaves()).len() && 0 <= k2 < theta_entries(tree.leaves()).len() && k != k2
                ==> #[trigger] theta_entries(tree.leaves())[k].0.value_at(vals) + theta_entries(tree.leaves())[k].1
                <= #[trigger] theta_entries(tree.leaves())[k2].0.value_at(vals) || theta_entries(tree.leaves())[k2].0.value_at(
                vals,
            ) + theta_entries(tree.leaves())[k2].1 <= theta_entries(tree.leaves())[k].0.value_at(vals),
        forall|k: int|
            0 <= k < theta_entries(tree.leaves()).len() ==> #[trigger] theta_entries(tree.leaves())[k].0.value_at(vals)
                + theta_entries(tree.leaves())[k].1 <= curr_task.value_at(vals) || curr_task.value_at(vals) + curr_task_p
                <= theta_entries(tree.leaves())[k].0.value_at(vals),
    ensures
        curr_task.value_at(vals) >= new_lb,
{
    let t = theta_entries(tree.leaves());
    let cl = curr_task.view_lb(context);
    let p = curr_task_p;
    let (i, j) = choose|i: int, j: int|
        {
            &&& ef_omega_start(t, context, cl, p, lct, i)
            &&& ef_omega_prime_start(t, context, ect_of(tree.leaves()), i, j)
            &&& #[trigger] ef_reason(r, t, context, cl, curr_task, p, new_lb, i, j)
        };
    context.lemma_bounds();
    lemma_theta_sum(tree);
    lemma_theta_entry(tree, context, i);
    lemma_theta_entry(tree, context, j);
    let rr = min2(cl, t[i].0.view_lb(context));
    assert(-TREE_LIMIT <= cl <= TREE_LIMIT);
    assert(run_end(t, context, j) == new_lb);
    let sigma = Seq::new(t.len(), |k: int| t[k].0.value_at(vals));
    assert forall|it: int| i <= it < t.len() implies ef_lower(t, context, cl, new_lb, i, j, it) <= #[trigger] sigma[it]
        && sigma[it] <= ef_upper(t, context, cl, p, i, it) by {
        lemma_theta_entry(tree, context, it);
        let lo = ef_lower(t, context, cl, new_lb, i, j, it);
        let hi = ef_upper(t, context, cl, p, i, it);
        assert(r[2 * (it - i)] == t[it].0.lower_bound_predicate_spec(lo));
        assert(r[2 * (it - i) + 1] == t[it].0.upper_bound_predicate_spec(hi));
        assert(r[2 * (it - i)].met_by(vals));
        assert(r[2 * (it - i) + 1].met_by(vals));
        assert(suffix_p(t, i) <= TREE_LIMIT);
        lemma_bound_predicates_mean(t[it].0, lo, vals, context);
        lemma_bound_predicates_mean(t[it].0, hi, vals, context);
    }
    assert(r[r.len() - 1].met_by(vals));
    lemma_bound_predicates_mean(curr_task, rr, vals, context);
    assert forall|k: int| 0 <= k < t.len() implies (#[trigger] t[k]).1 >= 0 by {
        lemma_theta_entry(tree, context, k);
    }
    assert forall|k: int, k2: int|
        #![trigger sigma[k], sigma[k2]]
        i <= k < t.len() && i <= k2 < t.len() && k != k2 implies sigma[k] + t[k].1 <= sigma[k2] || sigma[k2] + t[k2].1
            <= sigma[k] by {
        assert(sigma[k] == t[k].0.value_at(vals));
        assert(sigma[k2] == t[k2].0.value_at(vals));
    }
    assert forall|k: int| i <= k < t.len() implies #[trigger] sigma[k] + t[k].1 <= curr_task.value_at(vals)
        || curr_task.value_at(vals) + p <= sigma[k] by {
        assert(sigma[k] == t[k].0.value_at(vals));
    }
    lemma_ef_reason_justifies(t, context, cl, p, new_lb, i, j, sigma, curr_task.value_at(vals));
}

/// An overload explanation is a valid conflict, outside the widened window (see
/// `window_exact`). Take a tree whose white leaves have their earliest starts as lower
/// bounds, whose theta completes after `lct` while each of its tasks completes by `lct`;
/// for the explanation that `compute_overload_explanation` gives (the kept tasks from
/// entry `k0` of the theta list on): each literal holds under the current bounds, and no
/// values of the domains that meet every literal let the kept tasks run without two of
/// them overlapping.
#[verifier::rlimit(40)]
#[verifier::spinoff_prover]
pub proof fn lemma_overload_explanation_valid(
    tree: &ThetaLambdaTree,
    lct: int,
    context: &Assignments,
    reason: Seq<Predicate>,
    k0: int,
)
    requires
        tree.wf(),
        context.wf(),
        white_lbs_ok(tree, context),
        theta_entries(tree.leaves()).len() > 0,
        ect_of(tree.leaves()) > lct,
        forall|k: int|
            0 <= k < theta_entries(tree.leaves()).len() ==> (#[trigger] theta_entries(tree.leaves())[k]).0.view_ub(context)
                + theta_entries(tree.leaves())[k].1 <= lct,
        overload_start(theta_entries(tree.leaves()), context, lct, k0),
        overload_reason(reason, theta_entries(tree.leaves()), context, lct, k0),
        window_exact(
            theta_entries(tree.leaves())[k0].0.view_lb(context),
            lct,
            overload_delta(theta_entries(tree.leaves()), context, lct, k0),
        ),
    ensures
        forall|m: int| 0 <= m < reason.len() ==> (#[trigger] reason[m]).holds_in(context),
        forall|vals: Seq<int>|
            #[trigger] all_met(reason, vals) ==> exists|k: int, k2: int|
                {
                    &&& k0 <= k < theta_entries(tree.leaves()).len()
                    &&& k0 <= k2 < theta_entries(tree.leaves()).len()
                    &&& k != k2
                    &&& #[trigger] theta_entries(tree.leaves())[k].0.value_at(vals) + theta_entries(tree.leaves())[k].1
                        > #[trigger] theta_entries(tree.leaves())[k2].0.value_at(vals)
                    &&& theta_entries(tree.leaves())[k2].0.value_at(vals) + theta_entries(tree.leaves())[k2].1
                        > theta_entries(tree.leaves())[k].0.value_at(vals)
                },
{
    let t = theta_entries(tree.leaves());
    context.lemma_bounds();
    lemma_theta_sum(tree);
    lemma_theta_sorted(tree, context);
    assert forall|k: int| 0 <= k < t.len() implies (#[trigger] t[k]).1 >= 0 && -TREE_LIMIT <= t[k].0.view_lb(context)
        <= TREE_LIMIT && t[k].0.valid(context) by {
        lemma_theta_entry(tree, context, k);
    }
    lemma_theta_attained(tree, context);
    let ja = choose|j: int| 0 <= j < t.len() && #[trigger] run_end(t, context, j) == ect_of(tree.leaves());
    assert(overload_delta(t, context, lct, ja) >= 0);
    lemma_overload_reason_valid(t, context, lct, k0, reason);
    let w = overload_window(t[k0].0.view_lb(context), lct, overload_delta(t, context, lct, k0));
    lemma_theta_entry(tree, context, k0);
    assert(w.0 <= t[k0].0.view_lb(context));
    assert forall|k: int| k0 <= k < t.len() implies {
        &&& -2 * TREE_LIMIT <= #[trigger] t[k].0.offset + 0 <= 2 * TREE_LIMIT
        &&& -2 * TREE_LIMIT <= w.0 <= 2 * TREE_LIMIT
        &&& -2 * TREE_LIMIT <= w.1 - t[k].1 <= 2 * TREE_LIMIT
    } by {
        lemma_theta_entry(tree, context, k);
        assert(t[k].0.view_lb(context) <= t[k].0.view_ub(context));
        assert(w.0 <= t[k].0.view_lb(context) && t[k].0.view_ub(context) <= w.1 - t[k].1);
        assert(w.1 - w.0 == suffix_p(t, k0) - 1);
        assert(suffix_p(t, k0) <= TREE_LIMIT);
    }
    assert forall|m: int| 0 <= m < reason.len() implies (#[trigger] reason[m]).holds_in(context) by {
        let k = k0 + m / 2;
        lemma_theta_entry(tree, context, k);
        assert(reason[2 * (k - k0)] == t[k].0.lower_bound_predicate_spec(w.0));
        lemma_bound_predicates_mean(t[k].0, w.0, Seq::empty(), context);
        lemma_bound_predicates_mean(t[k].0, w.1 - t[k].1, Seq::empty(), context);
    }
    assert forall|vals: Seq<int>| #[trigger] all_met(reason, vals) implies exists|
        k: int,
        k2: int,
    |
        {
            &&& k0 <= k < t.len()
            &&& k0 <= k2 < t.len()
            &&& k != k2
            &&& #[trigger] t[k].0.value_at(vals) + t[k].1 > #[trigger] t[k2].0.value_at(vals)
            &&& t[k2].0.value_at(vals) + t[k2].1 > t[k].0.value_at(vals)
        } by {
        let sigma = Seq::new(t.len(), |k: int| t[k].0.value_at(vals));
        assert forall|k: int| k0 <= k < t.len() implies w.0 <= #[trigger] sigma[k] && sigma[k] + t[k].1 <= w.1 by {
            assert(reason[2 * (k - k0)].met_by(vals));
            assert(reason[2 * (k - k0) + 1].met_by(vals));
            assert(-2 * TREE_LIMIT <= t[k].0.offset + 0 <= 2 * TREE_LIMIT);
            lemma_bound_predicates_mean(t[k].0, w.0, vals, context);
            lemma_bound_predicates_mean(t[k].0, w.1 - t[k].1, vals, context);
        }
        if !(exists|k: int, k2: int|
            {
                &&& k0 <= k < t.len()
                &&& k0 <= k2 < t.len()
                &&& k != k2
                &&& #[trigger] t[k].0.value_at(vals) + t[k].1 > #[trigger] t[k2].0.value_at(vals)
                &&& t[k2].0.value_at(vals) + t[k2].1 > t[k].0.value_at(vals)
            }) {
            assert forall|k: int, k2: int|
                #![trigger sigma[k], sigma[k2]]
                k0 <= k < t.len() && k0 <= k2 < t.len() && k != k2 implies sigma[k] + t[k].1 <= sigma[k2] || sigma[k2]
                    + t[k2].1 <= sigma[k] by {
                assert(sigma[k] == t[k].0.value_at(vals));
                assert(sigma[k2] == t[k2].0.value_at(vals));
            }
            lemma_window_too_small(t, k0, w.0, w.1, sigma);
            let k = choose|k: int| k0 <= k < t.len() && !(w.0 <= #[trigger] sigma[k] && sigma[k] + t[k].1 <= w.1);
            assert(false);
        }
    }
}

} // verus!
