//! Edge finding depends on the bounds alone: two runs over the same tasks from the same
//! bounds succeed or fail together and, when they succeed, leave the same bounds, whatever
//! explanations were recorded before them. So `propagate` and
//! `debug_propagate_from_scratch` agree.
use vstd::prelude::*;
use crate::disjunctive::{
    edge_finding_done, edge_found, ef_frame, ef_orders, ef_pass, first_trigger, lct_keys, lct_of, lemma_orders,
    propagated, raise_explained_by, raise_overflows, raise_recorded, raises_listed, set_leaves, task_free_domain,
    theta_ect, theta_ect_with, DisjunctivePropagator, DisjunctiveTask,
};
use crate::engine::{Assignments, Inconsistency};
use crate::soundness::lemma_pass_fails_iff;
use crate::theta_lambda_trees::{lb_keys, task_pairs};

verus! {

/// `a` and `b` hold the same domains with the same bounds.
pub open spec fn same_bounds(a: &Assignments, b: &Assignments) -> bool {
    &&& a.num_domains() == b.num_domains()
    &&& forall|d: int|
        #![trigger a.lb(d)]
        #![trigger b.lb(d)]
        0 <= d < a.num_domains() ==> a.lb(d) == b.lb(d) && a.ub(d) == b.ub(d)
}

/// What the specifications of a pass read of the bounds `a` and `b` is the same.
pub open spec fn same_reading(tasks: Seq<DisjunctiveTask>, a: &Assignments, b: &Assignments, lo: Seq<usize>, co: Seq<usize>) -> bool {
    &&& forall|i: int|
        #![trigger tasks[i].start_times.view_lb(a)]
        #![trigger tasks[i].start_times.view_ub(a)]
        #![trigger tasks[i].start_times.view_lb(b)]
        #![trigger tasks[i].start_times.view_ub(b)]
        0 <= i < tasks.len() ==> tasks[i].start_times.view_lb(a) == tasks[i].start_times.view_lb(b)
            && tasks[i].start_times.view_ub(a) == tasks[i].start_times.view_ub(b)
    &&& forall|p: int, x: int|
        #[trigger] set_leaves(tasks, a, lo, co, p, x, tasks.len() as int) == set_leaves(tasks, b, lo, co, p, x, tasks.len() as int)
}

proof fn lemma_same_reading(tasks: Seq<DisjunctiveTask>, a: &Assignments, b: &Assignments, lo: Seq<usize>, co: Seq<usize>)
    requires
        same_bounds(a, b),
        ef_orders(tasks, a, lo, co),
    ensures
        same_reading(tasks, a, b, lo, co),
        lb_keys(task_pairs(tasks), a) == lb_keys(task_pairs(tasks), b),
        lct_keys(tasks, a) == lct_keys(tasks, b),
{
    lemma_orders(tasks, a, lo, co);
    assert forall|i: int| 0 <= i < tasks.len() implies #[trigger] tasks[i].start_times.view_lb(a)
        == tasks[i].start_times.view_lb(b) && tasks[i].start_times.view_ub(a) == tasks[i].start_times.view_ub(b) by {
        assert(tasks[i].start_times.valid(a));
        let d = tasks[i].start_times.domain as int;
        assert(a.lb(d) == b.lb(d) && a.ub(d) == b.ub(d));
    }
    assert forall|p: int, x: int| #[trigger] set_leaves(tasks, a, lo, co, p, x, tasks.len() as int) == set_leaves(
        tasks,
        b,
        lo,
        co,
        p,
        x,
        tasks.len() as int,
    ) by {
        let sa = set_leaves(tasks, a, lo, co, p, x, tasks.len() as int);
        let sb = set_leaves(tasks, b, lo, co, p, x, tasks.len() as int);
        assert forall|q: int| 0 <= q < sa.len() implies sa[q] == sb[q] by {
            if q < lo.len() {
                let t = lo[q] as int;
                assert(0 <= t < tasks.len());
                assert(task_pairs(tasks)[t] == (tasks[t].start_times, tasks[t].duration));
                assert(tasks[t].start_times.view_lb(a) == tasks[t].start_times.view_lb(b));
            }
        }
        assert(sa =~= sb);
    }
    assert forall|k: int| 0 <= k < tasks.len() implies #[trigger] lb_keys(task_pairs(tasks), a)[k] == lb_keys(
        task_pairs(tasks),
        b,
    )[k] by {
        assert(task_pairs(tasks)[k] == (tasks[k].start_times, tasks[k].duration));
        assert(tasks[k].start_times.view_lb(a) == tasks[k].start_times.view_lb(b));
    }
    assert(lb_keys(task_pairs(tasks), a) =~= lb_keys(task_pairs(tasks), b));
    assert forall|k: int| 0 <= k < tasks.len() implies #[trigger] lct_keys(tasks, a)[k] == lct_keys(tasks, b)[k] by {
        assert(tasks[k].start_times.view_lb(a) == tasks[k].start_times.view_lb(b));
        assert(tasks[k].start_times.view_ub(a) == tasks[k].start_times.view_ub(b));
    }
    assert(lct_keys(tasks, a) =~= lct_keys(tasks, b));
}

/// A task that one successful run raised gets the same lower bound from another
/// successful run that reads the bounds the same way: both raise it by the first theta at
/// which the rule applies to it.
proof fn lemma_raise_agrees(
    tasks: Seq<DisjunctiveTask>,
    a0: &Assignments,
    a1: &Assignments,
    b0: &Assignments,
    b1: &Assignments,
    lo: Seq<usize>,
    co: Seq<usize>,
    ra: Seq<int>,
    ata: Seq<int>,
    rb: Seq<int>,
    atb: Seq<int>,
    i: int,
)
    requires
        same_reading(tasks, a0, b0, lo, co),
        ef_orders(tasks, a0, lo, co),
        ef_frame(tasks, a0, a1),
        raises_listed(tasks, a0, a1, lo, co, ra, ata),
        raises_listed(tasks, b0, b1, lo, co, rb, atb),
        edge_finding_done(tasks, b0, b1, lo, co),
        0 <= i < tasks.len(),
        tasks[i].start_times.view_lb(a1) != tasks[i].start_times.view_lb(a0),
    ensures
        tasks[i].start_times.view_lb(b1) == tasks[i].start_times.view_lb(a1),
{
    lemma_orders(tasks, a0, lo, co);
    let n0a = a0.explanations().len() as int;
    let n0b = b0.explanations().len() as int;
    assert(ra.contains(i));
    let ka = choose|k: int| 0 <= k < ra.len() && ra[k] == i;
    assert(0 <= ra[ka] < tasks.len());
    let pa = ata[ka];
    assert(raise_recorded(tasks, a0, a1, lo, co, a1.explanations()[n0a + ka], i, pa));
    let (oi, oj) = choose|oi: int, oj: int| #[trigger] raise_explained_by(tasks, a0, lo, co, a1.explanations()[n0a + ka], pa, i, oi, oj);
    assert(1 <= pa < tasks.len());
    // the rule applies to `i` at `pa` in the other run too
    assert(theta_ect_with(tasks, b0, lo, co, pa, i) == theta_ect_with(tasks, a0, lo, co, pa, i));
    assert(theta_ect(tasks, b0, lo, co, pa) == theta_ect(tasks, a0, lo, co, pa));
    assert(lct_of(tasks[co[pa] as int], b0) == lct_of(tasks[co[pa] as int], a0));
    assert(edge_found(tasks, b0, b1, lo, co, pa));
    assert(tasks[i].start_times.view_lb(b1) >= theta_ect(tasks, b0, lo, co, pa));
    assert(tasks[i].start_times.view_ub(a1) == tasks[i].start_times.view_ub(a0));
    assert(tasks[i].start_times.view_lb(a0) == tasks[i].start_times.view_lb(b0));
    assert(tasks[i].start_times.view_lb(b1) != tasks[i].start_times.view_lb(b0));
    assert(rb.contains(i));
    let kb = choose|k: int| 0 <= k < rb.len() && rb[k] == i;
    assert(0 <= rb[kb] < tasks.len());
    let pb = atb[kb];
    assert(raise_recorded(tasks, b0, b1, lo, co, b1.explanations()[n0b + kb], i, pb));
    let (oi2, oj2) = choose|oi2: int, oj2: int| #[trigger] raise_explained_by(tasks, b0, lo, co, b1.explanations()[n0b + kb], pb, i, oi2, oj2);
    assert(theta_ect_with(tasks, b0, lo, co, pb, i) == theta_ect_with(tasks, a0, lo, co, pb, i));
    assert(lct_of(tasks[co[pb] as int], b0) == lct_of(tasks[co[pb] as int], a0));
    if pa < pb {
        assert(first_trigger(tasks, b0, lo, co, pb, i));
        assert(theta_ect_with(tasks, b0, lo, co, pa, i) <= lct_of(tasks[co[pa] as int], b0));
    } else if pb < pa {
        assert(first_trigger(tasks, a0, lo, co, pa, i));
        assert(theta_ect_with(tasks, a0, lo, co, pb, i) <= lct_of(tasks[co[pb] as int], a0));
    }
    assert(pa == pb);
}

/// Two successful runs over the same tasks from the same bounds leave the same bounds.
pub proof fn lemma_pass_agrees(tasks: Seq<DisjunctiveTask>, a0: &Assignments, a1: &Assignments, b0: &Assignments, b1: &Assignments)
    requires
        same_bounds(a0, b0),
        ef_pass(tasks, a0, a1, Ok(())),
        ef_pass(tasks, b0, b1, Ok(())),
    ensures
        same_bounds(a1, b1),
{
    let (lo, co) = choose|lo: Seq<usize>, co: Seq<usize>|
        {
            &&& #[trigger] ef_orders(tasks, a0, lo, co)
            &&& exists|raised: Seq<int>, at: Seq<int>| #[trigger] raises_listed(tasks, a0, a1, lo, co, raised, at)
            &&& edge_finding_done(tasks, a0, a1, lo, co)
        };
    let (lo2, co2) = choose|lo2: Seq<usize>, co2: Seq<usize>|
        {
            &&& #[trigger] ef_orders(tasks, b0, lo2, co2)
            &&& exists|raised: Seq<int>, at: Seq<int>| #[trigger] raises_listed(tasks, b0, b1, lo2, co2, raised, at)
            &&& edge_finding_done(tasks, b0, b1, lo2, co2)
        };
    lemma_same_reading(tasks, a0, b0, lo, co);
    crate::sorting::lemma_stable_order_unique(lo, lo2, lb_keys(task_pairs(tasks), b0));
    crate::sorting::lemma_stable_order_unique(co, co2, lct_keys(tasks, b0));
    assert(lo == lo2 && co == co2);
    let (ra, ata) = choose|raised: Seq<int>, at: Seq<int>| #[trigger] raises_listed(tasks, a0, a1, lo, co, raised, at);
    let (rb, atb) = choose|raised: Seq<int>, at: Seq<int>| #[trigger] raises_listed(tasks, b0, b1, lo, co, raised, at);
    assert forall|i: int| 0 <= i < tasks.len() implies #[trigger] tasks[i].start_times.view_lb(a1)
        == tasks[i].start_times.view_lb(b1) && tasks[i].start_times.view_ub(a1) == tasks[i].start_times.view_ub(b1) by {
        if tasks[i].start_times.view_lb(a1) != tasks[i].start_times.view_lb(a0) {
            lemma_raise_agrees(tasks, a0, a1, b0, b1, lo, co, ra, ata, rb, atb, i);
        } else if tasks[i].start_times.view_lb(b1) != tasks[i].start_times.view_lb(b0) {
            assert(same_reading(tasks, b0, a0, lo, co));
            lemma_raise_agrees(tasks, b0, b1, a0, a1, lo, co, rb, atb, ra, ata, i);
        }
    }
    assert forall|d: int| 0 <= d < a1.num_domains() implies #[trigger] a1.lb(d) == b1.lb(d) && a1.ub(d) == b1.ub(d) by {
        if task_free_domain(tasks, d) {
            assert(a0.lb(d) == b0.lb(d));
        } else {
            let i = choose|i: int| 0 <= i < tasks.len() && #[trigger] tasks[i].start_times.domain == d;
            assert(tasks[i].start_times.view_lb(a1) == tasks[i].start_times.view_lb(b1));
            assert(tasks[i].start_times.view_ub(a1) == tasks[i].start_times.view_ub(b1));
        }
    }
}

/// A run over the tasks from bounds `a0` fails exactly when one from the same bounds `b0`
/// does.
pub proof fn lemma_pass_fails_alike(
    tasks: Seq<DisjunctiveTask>,
    a0: &Assignments,
    a1: &Assignments,
    r1: Result<(), Inconsistency>,
    b0: &Assignments,
    b1: &Assignments,
    r2: Result<(), Inconsistency>,
)
    requires
        same_bounds(a0, b0),
        ef_pass(tasks, a0, a1, r1),
        ef_pass(tasks, b0, b1, r2),
    ensures
        r1 is Err <==> r2 is Err,
{
    let (lo, co) = choose|lo: Seq<usize>, co: Seq<usize>| #[trigger] ef_orders(tasks, a0, lo, co)
        && exists|raised: Seq<int>, at: Seq<int>| #[trigger] raises_listed(tasks, a0, a1, lo, co, raised, at);
    lemma_same_reading(tasks, a0, b0, lo, co);
    assert(ef_orders(tasks, b0, lo, co)) by {
        let (lo2, co2) = choose|lo2: Seq<usize>, co2: Seq<usize>| #[trigger] ef_orders(tasks, b0, lo2, co2)
            && exists|raised: Seq<int>, at: Seq<int>| #[trigger] raises_listed(tasks, b0, b1, lo2, co2, raised, at);
        crate::sorting::lemma_stable_order_unique(lo, lo2, lb_keys(task_pairs(tasks), b0));
        crate::sorting::lemma_stable_order_unique(co, co2, lct_keys(tasks, b0));
    }
    lemma_pass_fails_iff(tasks, a0, a1, r1, lo, co);
    lemma_pass_fails_iff(tasks, b0, b1, r2, lo, co);
    assert forall|b: int| 0 <= b < tasks.len() implies (#[trigger] theta_ect(tasks, a0, lo, co, b) > lct_of(
        tasks[co[b] as int],
        a0,
    )) == (theta_ect(tasks, b0, lo, co, b) > lct_of(tasks[co[b] as int], b0)) by {
        lemma_orders(tasks, a0, lo, co);
    }
    assert forall|b: int, i: int| #[trigger] raise_overflows(tasks, a0, lo, co, b, i) == raise_overflows(
        tasks,
        b0,
        lo,
        co,
        b,
        i,
    ) by {
        lemma_orders(tasks, a0, lo, co);
        if 1 <= b < tasks.len() && 0 <= i < tasks.len() {
            assert forall|b2: int|
                #![trigger theta_ect(tasks, a0, lo, co, b2)]
                #![trigger theta_ect(tasks, b0, lo, co, b2)]
                0 <= b2 < b implies theta_ect(tasks, a0, lo, co, b2) == theta_ect(tasks, b0, lo, co, b2) && lct_of(
                tasks[co[b2] as int],
                a0,
            ) == lct_of(tasks[co[b2] as int], b0) by {
                assert(co[b2] < tasks.len());
            }
            assert(tasks[i].start_times.view_ub(a0) == tasks[i].start_times.view_ub(b0));
            assert(lct_of(tasks[co[b] as int], a0) == lct_of(tasks[co[b] as int], b0)) by {
                assert(co[b] < tasks.len());
            }
            assert(theta_ect_with(tasks, a0, lo, co, b, i) == theta_ect_with(tasks, b0, lo, co, b, i));
        }
    }
    if r1 is Err {
        if (exists|b: int| 0 <= b < tasks.len() && #[trigger] theta_ect(tasks, a0, lo, co, b) > lct_of(tasks[co[b] as int], a0)) {
            let b = choose|b: int| 0 <= b < tasks.len() && #[trigger] theta_ect(tasks, a0, lo, co, b) > lct_of(tasks[co[b] as int], a0);
            assert(theta_ect(tasks, b0, lo, co, b) > lct_of(tasks[co[b] as int], b0));
        } else {
            let (b, i) = choose|b: int, i: int| #[trigger] raise_overflows(tasks, a0, lo, co, b, i);
            assert(raise_overflows(tasks, b0, lo, co, b, i));
        }
    }
    if r2 is Err {
        if (exists|b: int| 0 <= b < tasks.len() && #[trigger] theta_ect(tasks, b0, lo, co, b) > lct_of(tasks[co[b] as int], b0)) {
            let b = choose|b: int| 0 <= b < tasks.len() && #[trigger] theta_ect(tasks, b0, lo, co, b) > lct_of(tasks[co[b] as int], b0);
            assert(theta_ect(tasks, a0, lo, co, b) > lct_of(tasks[co[b] as int], a0));
        } else {
            let (b, i) = choose|b: int, i: int| #[trigger] raise_overflows(tasks, b0, lo, co, b, i);
            assert(raise_overflows(tasks, a0, lo, co, b, i));
        }
    }
}

/// Propagation depends on the bounds alone: two propagations of `p` from the same bounds
/// succeed or fail together and, when they succeed, leave the same bounds (the
/// explanations they record may come in another order among tasks that the rule treats
/// alike). In particular `propagate` and `debug_propagate_from_scratch`, started from the
/// same bounds, agree.
pub proof fn lemma_propagation_agrees(
    p: DisjunctivePropagator,
    a0: &Assignments,
    a1: &Assignments,
    r1: Result<(), Inconsistency>,
    b0: &Assignments,
    b1: &Assignments,
    r2: Result<(), Inconsistency>,
)
    requires
        same_bounds(a0, b0),
        propagated(p.tasks@, p.reverse_tasks@, a0, a1, r1),
        propagated(p.tasks@, p.reverse_tasks@, b0, b1, r2),
    ensures
        r1 is Ok <==> r2 is Ok,
        r1 is Ok ==> same_bounds(a1, b1),
{
    let tasks = p.tasks@;
    let rev = p.reverse_tasks@;
    if tasks.len() == 0 {
        assert(!(r1 is Err && ef_pass(tasks, a0, a1, r1)));
        assert(!(r2 is Err && ef_pass(tasks, b0, b1, r2)));
        assert forall|mid: Assignments| !ef_pass(tasks, a0, &mid, Ok(())) && !ef_pass(tasks, b0, &mid, Ok(())) by {}
        assert(same_bounds(a1, b1)) by {
            assert(*a1 == *a0);
            assert(*b1 == *b0);
        }
    } else {
        if r1 is Err && ef_pass(tasks, a0, a1, r1) {
            if r2 is Err && ef_pass(tasks, b0, b1, r2) {
            } else {
                let mid2 = choose|mid: Assignments| ef_pass(tasks, b0, &mid, Ok(())) && #[trigger] ef_pass(rev, &mid, b1, r2);
                lemma_pass_fails_alike(tasks, a0, a1, r1, b0, &mid2, Ok(()));
            }
        } else {
            let mid1 = choose|mid: Assignments| ef_pass(tasks, a0, &mid, Ok(())) && #[trigger] ef_pass(rev, &mid, a1, r1);
            if r2 is Err && ef_pass(tasks, b0, b1, r2) {
                lemma_pass_fails_alike(tasks, a0, &mid1, Ok(()), b0, b1, r2);
            } else {
                let mid2 = choose|mid: Assignments| ef_pass(tasks, b0, &mid, Ok(())) && #[trigger] ef_pass(rev, &mid, b1, r2);
                lemma_pass_agrees(tasks, a0, &mid1, b0, &mid2);
                lemma_pass_fails_alike(rev, &mid1, a1, r1, &mid2, b1, r2);
                if r1 is Ok {
                    lemma_pass_agrees(rev, &mid1, a1, &mid2, b1);
                }
            }
        }
    }
}

} // verus!
