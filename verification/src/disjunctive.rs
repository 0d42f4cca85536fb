//! The disjunctive constraint (no two tasks overlap) and its edge-finding propagator.
use vstd::prelude::*;
use crate::engine::{Assignments, EnqueueDecision, Inconsistency, IntVar, LocalId, Predicate, Watchers};
use crate::engine::DOMAIN_LIMIT;
use crate::theta_lambda_trees::{
    emptied, grayed, has_id, leaves_for, task_leaf, task_pairs, lb_keys, tasks_ok, unused_leaf,
    durations_of, lemma_task_leaf, Node, ThetaLambdaTree, est_sorted,
};
use crate::tree_spec::{
    lemma_same_theta, lemma_pad_empty, lemma_ect_monotone, lemma_single_white, whiten as whiten_leaves,
    is_gray_leaf, whiten, whitened, lemma_sum_p_update, lemma_no_white, is_empty_leaf,
    est, is_white, lemma_ect_attained, lemma_entry_white, lemma_sum_entries,
    lemma_sum_entries_concat, lemma_term_le_ect, lemma_white_entry, entry_at, ect_of, has_white,
    sum_entries, sum_p_of, term, theta_entries, leaf_ok, all_leaf_ok, TREE_LIMIT,
    lemma_sum_p_split, max2, lemma_entries_single,
};
use crate::sorting::{is_stable_order, key_before, stable_order, sum_int};

verus! {

/// A task: its start time, its duration and its index.
#[derive(Clone, Copy, Debug)]
pub struct DisjunctiveTask {
    pub start_times: IntVar,
    pub duration: i32,
    pub local_id: LocalId,
}

/// The disjunctive constraint over a list of tasks, with the mirrored tasks (start time
/// `-(s + d)`) whose earliest starts are the negated latest completions of the tasks they mirror.
pub struct Disjunctive {
    pub tasks: Vec<DisjunctiveTask>,
    pub reverse_tasks: Vec<DisjunctiveTask>,
}

/// The edge-finding propagator of the disjunctive constraint.
pub struct DisjunctivePropagator {
    pub tasks: Vec<DisjunctiveTask>,
    pub reverse_tasks: Vec<DisjunctiveTask>,
}

pub open spec fn min2(a: int, b: int) -> int {
    if a <= b {
        a
    } else {
        b
    }
}

/// The view `-(v + d)`: the start of the mirrored task.
pub open spec fn reverse_view(v: IntVar, d: i32) -> IntVar {
    IntVar { domain: v.domain, negated: !v.negated, offset: (-(v.offset + d)) as i32 }
}

pub open spec fn forward_task(v: IntVar, d: i32, i: int) -> DisjunctiveTask {
    DisjunctiveTask { start_times: v, duration: d, local_id: i as u32 }
}

pub open spec fn mirrored_task(v: IntVar, d: i32, i: int) -> DisjunctiveTask {
    DisjunctiveTask { start_times: reverse_view(v, d), duration: d, local_id: i as u32 }
}

/// `tasks` and `reverse_tasks` hold task `i` of `start_times` and `durations`, and its
/// mirror, for every `i`.
pub open spec fn built_from(
    tasks: Seq<DisjunctiveTask>,
    reverse_tasks: Seq<DisjunctiveTask>,
    start_times: Seq<IntVar>,
    durations: Seq<i32>,
) -> bool {
    &&& tasks.len() == start_times.len()
    &&& reverse_tasks.len() == start_times.len()
    &&& forall|i: int|
        0 <= i < start_times.len() ==> #[trigger] tasks[i] == forward_task(
            start_times[i],
            durations[i],
            i,
        ) && reverse_tasks[i] == mirrored_task(start_times[i], durations[i], i)
}

/// Each task of `rev` is the mirror of the task of `tasks` at the same position: its start is
/// `-(s + duration)` for the start `s` of the task it mirrors, with the same duration.
pub open spec fn mirrors(tasks: Seq<DisjunctiveTask>, rev: Seq<DisjunctiveTask>) -> bool {
    &&& rev.len() == tasks.len()
    &&& forall|i: int|
        0 <= i < tasks.len() ==> (#[trigger] rev[i]).start_times == reverse_view(tasks[i].start_times, tasks[i].duration)
            && rev[i].duration == tasks[i].duration
}

/// Mirroring every task keeps its offset arithmetic within `i32`.
pub open spec fn mirrorable(start_times: Seq<IntVar>, durations: Seq<i32>) -> bool {
    forall|i: int|
        0 <= i < start_times.len() ==> i32::MIN < #[trigger] start_times[i].offset + durations[i]
            <= i32::MAX
}

/// Creates the disjunctive constraint: no two of the tasks, each a start time and a
/// duration, may overlap.
pub fn disjunctive(start_times: Vec<IntVar>, durations: Vec<i32>) -> (r: Disjunctive)
    requires
        start_times@.len() == durations@.len(),
        mirrorable(start_times@, durations@),
    ensures
        built_from(r.tasks@, r.reverse_tasks@, start_times@, durations@),
        mirrors(r.tasks@, r.reverse_tasks@),
{
    Disjunctive::new(start_times, durations)
}

impl Disjunctive {
    /// The constraint over `tasks[i]` with duration `durations[i]`.
    pub fn new(tasks: Vec<IntVar>, durations: Vec<i32>) -> (r: Self)
        requires
            durations@.len() >= tasks@.len(),
            mirrorable(tasks@, durations@),
        ensures
            built_from(r.tasks@, r.reverse_tasks@, tasks@, durations@),
            mirrors(r.tasks@, r.reverse_tasks@),
    {
        let n = tasks.len();
        let mut disjunctive_tasks: Vec<DisjunctiveTask> = Vec::new();
        let mut reverse_tasks: Vec<DisjunctiveTask> = Vec::new();
        let mut i: usize = 0;
        while i < n
            invariant
                i <= n,
                n == tasks@.len(),
                durations@.len() >= tasks@.len(),
                mirrorable(tasks@, durations@),
                disjunctive_tasks@.len() == i,
                reverse_tasks@.len() == i,
                forall|k: int|
                    0 <= k < i ==> #[trigger] disjunctive_tasks@[k] == forward_task(
                        tasks@[k],
                        durations@[k],
                        k,
                    ) && reverse_tasks@[k] == mirrored_task(tasks@[k], durations@[k], k),
            decreases n - i,
        {
            assert(i32::MIN < tasks@[i as int].offset + durations@[i as int]);
            let id: u32 = #[verifier::truncate] (i as u32);
            let forward = DisjunctiveTask { start_times: tasks[i], duration: durations[i], local_id: id };
            let mirrored = DisjunctiveTask {
                start_times: tasks[i].offset(durations[i]).scaled(-1),
                duration: durations[i],
                local_id: id,
            };
            assert(forward == forward_task(tasks@[i as int], durations@[i as int], i as int));
            assert(mirrored.start_times == reverse_view(tasks@[i as int], durations@[i as int]));
            assert(mirrored == mirrored_task(tasks@[i as int], durations@[i as int], i as int));
            disjunctive_tasks.push(forward);
            reverse_tasks.push(mirrored);
            i = i + 1;
        }
        let r = Disjunctive { tasks: disjunctive_tasks, reverse_tasks };
        assert(built_from(r.tasks@, r.reverse_tasks@, tasks@, durations@));
        assert(mirrors(r.tasks@, r.reverse_tasks@)) by {
            assert forall|k: int| 0 <= k < r.tasks@.len() implies (#[trigger] r.reverse_tasks@[k]).start_times == reverse_view(
                r.tasks@[k].start_times,
                r.tasks@[k].duration,
            ) && r.reverse_tasks@[k].duration == r.tasks@[k].duration by {
                assert(r.tasks@[k] == forward_task(tasks@[k], durations@[k], k));
            }
        }
        r
    }

    /// The propagator that enforces this constraint.
    pub fn into_propagator(self) -> (r: DisjunctivePropagator)
        ensures
            r.tasks == self.tasks,
            r.reverse_tasks == self.reverse_tasks,
    {
        DisjunctivePropagator::new(self.tasks, self.reverse_tasks)
    }
}

impl DisjunctivePropagator {
    pub fn new(tasks: Vec<DisjunctiveTask>, reverse_tasks: Vec<DisjunctiveTask>) -> (r: Self)
        ensures
            r.tasks == tasks,
            r.reverse_tasks == reverse_tasks,
    {
        DisjunctivePropagator { tasks, reverse_tasks }
    }

    /// The propagator of the disjunctive constraint over `start_times[i]` with duration
    /// `durations[i]`.
    pub fn from_vectors(start_times: Vec<IntVar>, durations: Vec<i32>) -> (r: Self)
        requires
            durations@.len() >= start_times@.len(),
            mirrorable(start_times@, durations@),
        ensures
            built_from(r.tasks@, r.reverse_tasks@, start_times@, durations@),
            mirrors(r.tasks@, r.reverse_tasks@),
    {
        let disj = Disjunctive::new(start_times, durations);
        DisjunctivePropagator { tasks: disj.tasks, reverse_tasks: disj.reverse_tasks }
    }

    /// Both task lists can go through edge finding under the bounds `a`.
    pub open spec fn ready(&self, a: &Assignments) -> bool {
        ||| self.tasks@.len() == 0 && self.reverse_tasks@.len() == 0
        ||| ef_tasks_ok(self.tasks@, a) && ef_tasks_ok(self.reverse_tasks@, a)
    }

    /// Edge finding on the tasks, then, if that succeeded, on the mirrored tasks (which
    /// lowers latest completion times).
    pub fn propagate(&mut self, context: &mut Assignments) -> (r: Result<(), Inconsistency>)
        requires
            old(self).ready(old(context)),
        ensures
            *final(self) == *old(self),
            propagated(old(self).tasks@, old(self).reverse_tasks@, old(context), final(context), r),
    {
        if self.tasks.len() == 0 {
            return Ok(());
        }
        let first_result = edge_finding(&self.tasks, context);
        if first_result.is_err() {
            return first_result;
        }
        let ghost mid = *context;
        proof {
            assert(ef_tasks_ok(self.reverse_tasks@, context)) by {
                assert forall|i: int| 0 <= i < self.reverse_tasks@.len() implies (#[trigger] self.reverse_tasks@[i]).start_times.valid(context) && 0 <= self.reverse_tasks@[i].duration by {
                    assert(self.reverse_tasks@[i].start_times.valid(old(context)));
                }
            }
        }
        let r = edge_finding(&self.reverse_tasks, context);
        proof {
            assert(propagated(self.tasks@, self.reverse_tasks@, old(context), context, r)) by {
                assert(ef_pass(self.tasks@, old(context), &mid, first_result));
            }
        }
        r
    }

    /// The same as `propagate`, without changing the propagator.
    pub fn debug_propagate_from_scratch(&self, context: &mut Assignments) -> (r: Result<(), Inconsistency>)
        requires
            self.ready(old(context)),
        ensures
            propagated(self.tasks@, self.reverse_tasks@, old(context), final(context), r),
    {
        if self.tasks.len() == 0 {
            return Ok(());
        }
        let first_result = edge_finding(&self.tasks, context);
        if first_result.is_err() {
            return first_result;
        }
        let ghost mid = *context;
        proof {
            assert(ef_tasks_ok(self.reverse_tasks@, context)) by {
                assert forall|i: int| 0 <= i < self.reverse_tasks@.len() implies (#[trigger] self.reverse_tasks@[i]).start_times.valid(context) && 0 <= self.reverse_tasks@[i].duration by {
                    assert(self.reverse_tasks@[i].start_times.valid(old(context)));
                }
            }
        }
        let r = edge_finding(&self.reverse_tasks, context);
        proof {
            assert(propagated(self.tasks@, self.reverse_tasks@, old(context), context, r)) by {
                assert(ef_pass(self.tasks@, old(context), &mid, first_result));
            }
        }
        r
    }

    /// Any change to a bound of one of its tasks makes the propagator run again.
    pub fn notify(&mut self, _local_id: LocalId) -> (r: EnqueueDecision)
        ensures
            r == EnqueueDecision::Enqueue,
            *final(self) == *old(self),
    {
        EnqueueDecision::Enqueue
    }

    /// Asks to hear of the bound changes of every task's start time, under the task's
    /// local id.
    pub fn initialise_at_root(&mut self, context: &mut Watchers) -> (r: Result<(), Vec<Predicate>>)
        ensures
            r is Ok,
            *final(self) == *old(self),
            final(context).registered() == old(context).registered() + old(self).tasks@.map_values(
                |t: DisjunctiveTask| (t.start_times.domain, t.local_id),
            ),
    {
        let mut i: usize = 0;
        while i < self.tasks.len()
            invariant
                i <= self.tasks@.len(),
                *self == *old(self),
                context.registered() == old(context).registered() + self.tasks@.take(i as int).map_values(
                    |t: DisjunctiveTask| (t.start_times.domain, t.local_id),
                ),
            decreases self.tasks@.len() - i,
        {
            let task = self.tasks[i];
            context.register_bounds(task.start_times, task.local_id);
            proof {
                assert(self.tasks@.take(i + 1) =~= self.tasks@.take(i as int).push(task));
                assert(self.tasks@.take(i + 1).map_values(|t: DisjunctiveTask| (t.start_times.domain, t.local_id))
                    =~= self.tasks@.take(i as int).map_values(|t: DisjunctiveTask| (t.start_times.domain, t.local_id)).push(
                    (task.start_times.domain, task.local_id),
                ));
            }
            i = i + 1;
        }
        proof {
            assert(self.tasks@.take(self.tasks@.len() as int) =~= self.tasks@);
        }
        Ok(())
    }

    /// The name of this propagator.
    pub fn name(&self) -> (r: &str)
        ensures
            r@ == "Disjunctive-Edge-Finding"@,
    {
        "Disjunctive-Edge-Finding"
    }
}

/// Propagation ran edge finding on `tasks` from `a0`, then (if that succeeded) on the
/// mirrored `reverse_tasks`, ending in `a` with result `r`; without tasks it succeeded and
/// changed nothing.
pub open spec fn propagated(
    tasks: Seq<DisjunctiveTask>,
    reverse_tasks: Seq<DisjunctiveTask>,
    a0: &Assignments,
    a: &Assignments,
    r: Result<(), Inconsistency>,
) -> bool {
    ||| tasks.len() == 0 && r is Ok && *a == *a0
    ||| r is Err && ef_pass(tasks, a0, a, r)
    ||| exists|mid: Assignments| ef_pass(tasks, a0, &mid, Ok(())) && #[trigger] ef_pass(reverse_tasks, &mid, a, r)
}

fn min_i32(a: i32, b: i32) -> (r: i32)
    ensures
        r == min2(a as int, b as int),
{
    if a <= b {
        a
    } else {
        b
    }
}


/// Total duration of the theta entries from `i` on.
pub open spec fn suffix_p(t: Seq<(IntVar, i32, bool)>, i: int) -> int {
    sum_entries(t.skip(i))
}

/// Completion time of the run of theta from entry `j`, under the bounds `a`.
pub open spec fn run_end(t: Seq<(IntVar, i32, bool)>, a: &Assignments, j: int) -> int {
    t[j].0.view_lb(a) + suffix_p(t, j)
}

/// The test by which the explanation chooses the first task of its set omega.
pub open spec fn ef_delta(t: Seq<(IntVar, i32, bool)>, a: &Assignments, cl: int, p: int, i: int) -> int {
    min2(cl, t[i].0.view_lb(a)) + suffix_p(t, i) + p
}

/// The start time view of every white leaf is valid and its lower bound is the leaf's
/// earliest start time.
pub open spec fn white_lbs_ok(tree: &ThetaLambdaTree, a: &Assignments) -> bool {
    forall|q: int|
        0 <= q < tree.leaves().len() && #[trigger] is_white(tree.leaves()[q]) ==> {
            &&& tree.leaves()[q].node_id.unwrap().1.valid(a)
            &&& tree.leaves()[q].node_id.unwrap().1.view_lb(a) == est(tree.leaves()[q])
        }
}

/// Facts on entry `j` of the theta list of a tree whose white leaves have their earliest
/// start times as lower bounds: a valid view with a duration within bounds, whose run
/// completes no later than theta.
pub proof fn lemma_theta_entry(tree: &ThetaLambdaTree, a: &Assignments, j: int)
    requires
        tree.wf(),
        a.wf(),
        white_lbs_ok(tree, a),
        0 <= j < theta_entries(tree.leaves()).len(),
    ensures
        ({
            let t = theta_entries(tree.leaves());
            &&& t[j].0.valid(a)
            &&& 0 <= t[j].1 <= TREE_LIMIT
            &&& -TREE_LIMIT <= t[j].0.view_lb(a) <= TREE_LIMIT
            &&& run_end(t, a, j) <= ect_of(tree.leaves())
            &&& suffix_p(t, j) == t[j].1 + suffix_p(t, j + 1)
            &&& 0 <= suffix_p(t, j + 1) <= suffix_p(t, j) <= sum_p_of(tree.leaves())
        }),
{
    let l = tree.leaves();
    let t = theta_entries(l);
    tree.lemma_root();
    lemma_entry_white(l, j);
    let q = choose|q: int| #[trigger] entry_at(l, j, q);
    assert(leaf_ok(l[q]));
    lemma_term_le_ect(l, q);
    lemma_run_from(l, q);
    assert(t.skip(j) =~= seq![t[j]] + t.skip(j + 1));
    lemma_sum_entries_concat(seq![t[j]], t.skip(j + 1));
    assert(seq![t[j]].drop_first() =~= Seq::<(IntVar, i32, bool)>::empty());
    assert(sum_entries(seq![t[j]].drop_first()) == 0);
    assert(seq![t[j]][0] == t[j]);
    assert(sum_entries(seq![t[j]]) == t[j].1);
    assert(t =~= t.take(j) + t.skip(j));
    lemma_sum_entries_concat(t.take(j), t.skip(j));
    lemma_sum_p_split(l, q);
    crate::theta_lambda_trees::lemma_entries_split(l, q);
    crate::tree_spec::lemma_leaf_ok_subrange(l, 0, q);
    assert(l.take(q) =~= l.subrange(0, q));
    lemma_sum_entries(l.take(q));
    lemma_sum_entries(l);
    assert(t[j].0 == l[q].node_id.unwrap().1);
    assert(white_lbs_ok(tree, a));
    assert(is_white(l[q]));
    assert(t[j].0.valid(a));
    assert(0 <= t[j].1 <= TREE_LIMIT);
    assert(-TREE_LIMIT <= t[j].0.view_lb(a) <= TREE_LIMIT);
    assert(run_end(t, a, j) <= ect_of(l));
    assert(suffix_p(t, j) == t[j].1 + suffix_p(t, j + 1));
    assert(0 <= suffix_p(t, j + 1));
    assert(suffix_p(t, j) <= sum_p_of(l));
}

/// The theta list of a tree whose white leaves have their earliest start times as lower
/// bounds is in order of lower bound.
pub proof fn lemma_theta_sorted(tree: &ThetaLambdaTree, a: &Assignments)
    requires
        tree.wf(),
        white_lbs_ok(tree, a),
    ensures
        forall|k: int, k2: int|
            #![trigger theta_entries(tree.leaves())[k], theta_entries(tree.leaves())[k2]]
            0 <= k <= k2 < theta_entries(tree.leaves()).len() ==> theta_entries(tree.leaves())[k].0.view_lb(a)
                <= theta_entries(tree.leaves())[k2].0.view_lb(a),
{
    let l = tree.leaves();
    let t = theta_entries(l);
    tree.lemma_root();
    assert forall|k: int, k2: int|
        #![trigger t[k], t[k2]]
        0 <= k <= k2 < t.len() implies t[k].0.view_lb(a) <= t[k2].0.view_lb(a) by {
        lemma_entry_white(l, k);
        let q = choose|q: int| #[trigger] entry_at(l, k, q);
        lemma_entry_white(l, k2);
        let q2 = choose|q: int| #[trigger] entry_at(l, k2, q);
        if q2 < q {
            assert(l.take(q) =~= l.take(q2) + l.subrange(q2, q));
            crate::tree_spec::lemma_theta_entries_concat(l.take(q2), l.subrange(q2, q));
            assert(l.subrange(q2, q) =~= seq![l[q2]] + l.subrange(q2 + 1, q));
            crate::tree_spec::lemma_theta_entries_concat(seq![l[q2]], l.subrange(q2 + 1, q));
            lemma_entries_single(l[q2]);
            assert(leaf_ok(l[q2]));
            assert(theta_entries(seq![l[q2]]).len() == 1);
            assert(false);
        }
        assert(is_white(l[q]) && is_white(l[q2]));
        assert(white_lbs_ok(tree, a));
        if q < q2 {
            assert(est_sorted(l));
            assert(est(l[q]) <= est(l[q2]));
        }
    }
}

/// The run of theta from white leaf `q` completes at the leaf's earliest start plus the
/// durations of theta from `q` on.
pub proof fn lemma_run_from(l: Seq<crate::theta_lambda_trees::Node>, q: int)
    requires
        all_leaf_ok(l),
        0 <= q < l.len(),
        is_white(l[q]),
    ensures
        term(l, q) == est(l[q]) + sum_p_of(l.skip(q)),
        sum_entries(theta_entries(l.skip(q))) == sum_p_of(l.skip(q)),
        sum_p_of(l.skip(q)) == l[q].sum_p + sum_p_of(l.skip(q + 1)),
        0 <= sum_p_of(l.skip(q + 1)),
{
    let lq = l.skip(q);
    assert(lq =~= seq![l[q]] + l.skip(q + 1));
    crate::tree_spec::lemma_leaf_ok_subrange(l, q + 1, l.len() as int);
    assert(l.skip(q + 1) =~= l.subrange(q + 1, l.len() as int));
    crate::tree_spec::lemma_leaf_ok_subrange(l, q, q + 1);
    assert(seq![l[q]] =~= l.subrange(q, q + 1));
    crate::tree_spec::lemma_concat(seq![l[q]], l.skip(q + 1));
    crate::tree_spec::lemma_singleton(l[q]);
    crate::tree_spec::lemma_leaf_ok_subrange(l, q, l.len() as int);
    assert(lq =~= l.subrange(q, l.len() as int));
    lemma_sum_entries(lq);
    crate::tree_spec::lemma_summary_bounds(l.skip(q + 1));
    assert(leaf_ok(l[q]));
}

/// When theta is not empty, some run of the theta list completes exactly at theta's
/// earliest completion time.
pub proof fn lemma_theta_attained(tree: &ThetaLambdaTree, a: &Assignments)
    requires
        tree.wf(),
        a.wf(),
        white_lbs_ok(tree, a),
        theta_entries(tree.leaves()).len() > 0,
    ensures
        exists|j: int|
            0 <= j < theta_entries(tree.leaves()).len() && #[trigger] run_end(
                theta_entries(tree.leaves()),
                a,
                j,
            ) == ect_of(tree.leaves()),
{
    let l = tree.leaves();
    let t = theta_entries(l);
    tree.lemma_root();
    lemma_entry_white(l, 0);
    let q0 = choose|q: int| #[trigger] entry_at(l, 0, q);
    assert(has_white(l)) by {
        assert(is_white(l[q0]));
    }
    lemma_ect_attained(l);
    let q = choose|q: int| 0 <= q < l.len() && is_white(l[q]) && #[trigger] term(l, q) == ect_of(l);
    lemma_white_entry(l, q);
    let j = theta_entries(l.take(q)).len() as int;
    lemma_run_from(l, q);
    assert(run_end(t, a, j) == ect_of(l));
}

/// The theta list has the total duration of theta, and nothing after its end.
pub proof fn lemma_theta_sum(tree: &ThetaLambdaTree)
    requires
        tree.wf(),
    ensures
        suffix_p(theta_entries(tree.leaves()), 0) == sum_p_of(tree.leaves()),
        suffix_p(theta_entries(tree.leaves()), theta_entries(tree.leaves()).len() as int) == 0,
        0 <= sum_p_of(tree.leaves()) <= TREE_LIMIT,
{
    let l = tree.leaves();
    let t = theta_entries(l);
    tree.lemma_root();
    lemma_sum_entries(l);
    crate::tree_spec::lemma_summary_bounds(l);
    assert(t.skip(0) =~= t);
    assert(t.skip(t.len() as int) =~= Seq::<(IntVar, i32, bool)>::empty());
}

/// What holds of every entry of a theta list `t` under the bounds `a`, with theta's
/// completion time `ect` and total duration `total`.
#[verifier::opaque]
pub open spec fn list_facts(t: Seq<(IntVar, i32, bool)>, a: &Assignments, ect: int, total: int) -> bool {
    &&& forall|k: int|
        0 <= k < t.len() ==> {
            &&& (#[trigger] t[k]).0.valid(a)
            &&& 0 <= t[k].1 <= TREE_LIMIT
            &&& -TREE_LIMIT <= t[k].0.view_lb(a) <= TREE_LIMIT
            &&& run_end(t, a, k) <= ect
            &&& suffix_p(t, k) == t[k].1 + suffix_p(t, k + 1)
            &&& 0 <= suffix_p(t, k + 1) <= suffix_p(t, k) <= total
        }
    &&& suffix_p(t, 0) == total
    &&& suffix_p(t, t.len() as int) == 0
    &&& 0 <= total <= TREE_LIMIT
}

pub proof fn lemma_list_at(t: Seq<(IntVar, i32, bool)>, a: &Assignments, ect: int, total: int, k: int)
    requires
        list_facts(t, a, ect, total),
        0 <= k < t.len(),
    ensures
        t[k].0.valid(a),
        0 <= t[k].1 <= TREE_LIMIT,
        -TREE_LIMIT <= t[k].0.view_lb(a) <= TREE_LIMIT,
        run_end(t, a, k) <= ect,
        suffix_p(t, k) == t[k].1 + suffix_p(t, k + 1),
        0 <= suffix_p(t, k + 1) <= suffix_p(t, k) <= total,
        0 <= total <= TREE_LIMIT,
{
    reveal(list_facts);
}

pub proof fn lemma_list_ends(t: Seq<(IntVar, i32, bool)>, a: &Assignments, ect: int, total: int)
    requires
        list_facts(t, a, ect, total),
    ensures
        suffix_p(t, 0) == total,
        suffix_p(t, t.len() as int) == 0,
        0 <= total <= TREE_LIMIT,
{
    reveal(list_facts);
}

/// Entry `i` starts omega: the first entry whose test exceeds `lct`.
pub open spec fn ef_omega_start(t: Seq<(IntVar, i32, bool)>, a: &Assignments, cl: int, p: int, lct: int, i: int) -> bool {
    &&& 0 <= i < t.len()
    &&& ef_delta(t, a, cl, p, i) > lct
    &&& forall|k: int| 0 <= k < i ==> #[trigger] ef_delta(t, a, cl, p, k) <= lct
}

/// Entry `j` starts omega': the first entry from `i` on whose run completes at `ect`.
pub open spec fn ef_omega_prime_start(t: Seq<(IntVar, i32, bool)>, a: &Assignments, ect: int, i: int, j: int) -> bool {
    &&& i <= j < t.len()
    &&& run_end(t, a, j) == ect
    &&& forall|k: int| i <= k < j ==> #[trigger] run_end(t, a, k) != ect
}

/// `r` explains raising the task `curr` (lower bound `cl`, duration `p`) to `new_lb`, with
/// omega from entry `i` and omega' from entry `j` of the theta list `t`: for each task of
/// omega a lower and an upper bound, then a lower bound on `curr`.
pub open spec fn ef_reason(
    r: Seq<Predicate>,
    t: Seq<(IntVar, i32, bool)>,
    a: &Assignments,
    cl: int,
    curr: IntVar,
    p: int,
    new_lb: int,
    i: int,
    j: int,
) -> bool {
    let rr = min2(cl, t[i].0.view_lb(a));
    &&& r.len() == 2 * (t.len() - i) + 1
    &&& forall|it: int|
        i <= it < t.len() ==> {
            &&& #[trigger] r[2 * (it - i)] == t[it].0.lower_bound_predicate_spec(
                if it < j {
                    rr
                } else {
                    max2(new_lb - suffix_p(t, j), rr)
                },
            )
            &&& r[2 * (it - i) + 1] == t[it].0.upper_bound_predicate_spec(
                rr + suffix_p(t, i) + p - 1 - t[it].1,
            )
        }
    &&& r[r.len() - 1] == curr.lower_bound_predicate_spec(rr)
}

/// Explains why the task `curr_task` (duration `curr_task_p`) cannot start before `new_lb`:
/// a set omega of theta that, with the task, cannot complete by `lct`, and the subset
/// omega' that gives theta's completion time.
#[verifier::rlimit(100)]
#[verifier::spinoff_prover]
pub fn compute_edge_finding_explanations(
    tree: &ThetaLambdaTree,
    curr_task: IntVar,
    curr_task_p: i32,
    new_lb: i32,
    context: &Assignments,
    lct: i32,
) -> (r: Vec<Predicate>)
    requires
        tree.wf(),
        context.wf(),
        white_lbs_ok(tree, context),
        curr_task.valid(context),
        0 <= curr_task_p <= TREE_LIMIT,
        -2 * TREE_LIMIT <= lct <= 2 * TREE_LIMIT,
        -2 * TREE_LIMIT <= new_lb <= 2 * TREE_LIMIT,
        exists|i: int|
            0 <= i < theta_entries(tree.leaves()).len() && #[trigger] ef_delta(
                theta_entries(tree.leaves()),
                context,
                curr_task.view_lb(context),
                curr_task_p as int,
                i,
            ) > lct,
    ensures
        exists|i: int, j: int|
            {
                &&& ef_omega_start(
                    theta_entries(tree.leaves()),
                    context,
                    curr_task.view_lb(context),
                    curr_task_p as int,
                    lct as int,
                    i,
                )
                &&& ef_omega_prime_start(theta_entries(tree.leaves()), context, ect_of(tree.leaves()), i, j)
                &&& #[trigger] ef_reason(
                    r@,
                    theta_entries(tree.leaves()),
                    context,
                    curr_task.view_lb(context),
                    curr_task,
                    curr_task_p as int,
                    new_lb as int,
                    i,
                    j,
                )
            },
{
    let tasks = tree.get_all_theta();
    let ghost t = tasks@;
    let ghost cl = curr_task.view_lb(context);
    let ghost p = curr_task_p as int;
    proof {
        context.lemma_bounds();
        lemma_theta_sum(tree);
        assert forall|k: int| 0 <= k < t.len() implies {
            &&& (#[trigger] t[k]).0.valid(context)
            &&& 0 <= t[k].1 <= TREE_LIMIT
            &&& -TREE_LIMIT <= t[k].0.view_lb(context) <= TREE_LIMIT
            &&& run_end(t, context, k) <= ect_of(tree.leaves())
            &&& suffix_p(t, k) == t[k].1 + suffix_p(t, k + 1)
            &&& 0 <= suffix_p(t, k + 1) <= suffix_p(t, k) <= sum_p_of(tree.leaves())
        } by {
            lemma_theta_entry(tree, context, k);
        }
        tree.lemma_root();
    }
    let ghost total = sum_p_of(tree.leaves());
    let ghost ect = ect_of(tree.leaves());
    assert(list_facts(t, context, ect, total)) by {
        reveal(list_facts);
    }
    let len = tasks.len();
    let curr_task_lb = context.lower_bound(curr_task);
    proof {
        context.lemma_bounds();
    }
    let mut i: usize = 0;
    let mut sum_p = tree.sum_p();
    proof {
        let k0 = choose|k: int| 0 <= k < t.len() && #[trigger] ef_delta(t, context, cl, p, k) > lct;
        lemma_list_at(t, context, ect, total, 0);
        lemma_list_ends(t, context, ect, total);
    }
    let mut delta = min_i32(curr_task_lb, context.lower_bound(tasks[i].0)) + sum_p + curr_task_p;
    loop
        invariant_except_break
            i < len,
            len == t.len(),
            tasks@ == t,
            context.wf(),
            list_facts(t, context, ect, total),
            curr_task_lb == cl,
            -TREE_LIMIT <= cl <= TREE_LIMIT,
            curr_task.valid(context),
            0 <= p <= TREE_LIMIT,
            p == curr_task_p,
            -2 * TREE_LIMIT <= lct <= 2 * TREE_LIMIT,
            -2 * TREE_LIMIT <= new_lb <= 2 * TREE_LIMIT,
            exists|k: int| 0 <= k < t.len() && #[trigger] ef_delta(t, context, cl, p, k) > lct,
            sum_p == suffix_p(t, i as int),
            delta == ef_delta(t, context, cl, p, i as int),
            forall|k: int| 0 <= k < i ==> #[trigger] ef_delta(t, context, cl, p, k) <= lct,
        ensures
            ef_omega_start(t, context, cl, p, lct as int, i as int),
            sum_p == suffix_p(t, i as int),
        decreases len - i,
    {
        if delta > lct {
            break;
        }
        proof {
            lemma_list_at(t, context, ect, total, i as int);
        }
        sum_p = sum_p - tasks[i].1;
        i = i + 1;
        if i == len {
            proof {
                let k = choose|k: int| 0 <= k < t.len() && #[trigger] ef_delta(t, context, cl, p, k) > lct;
                assert(false);
            }
            break;
        }
        proof {
            lemma_list_at(t, context, ect, total, i as int);
        }
        delta = min_i32(curr_task_lb, context.lower_bound(tasks[i].0)) + sum_p + curr_task_p;
    }
    proof {
        lemma_theta_attained(tree, context);
        let j1 = choose|j: int| 0 <= j < t.len() && #[trigger] run_end(t, context, j) == ect;
        if j1 < i {
            assert(ef_delta(t, context, cl, p, j1 as int) <= lct);
            lemma_list_at(t, context, ect, total, i as int);
            lemma_list_at(t, context, ect, total, j1);
            assert(run_end(t, context, i as int) <= ect);
            assert(suffix_p(t, i as int) <= suffix_p(t, j1)) by {
                lemma_suffix_monotone(tree, context, j1, i as int);
            }
            assert(false);
        }
    }
    let mut j = i;
    let mut sum_p_prime = sum_p;
    let tree_ect = tree.ect();
    loop
        invariant_except_break
            i <= j < len,
            len == t.len(),
            tasks@ == t,
            context.wf(),
            list_facts(t, context, ect, total),
            curr_task_lb == cl,
            -TREE_LIMIT <= cl <= TREE_LIMIT,
            curr_task.valid(context),
            0 <= p <= TREE_LIMIT,
            p == curr_task_p,
            -2 * TREE_LIMIT <= lct <= 2 * TREE_LIMIT,
            -2 * TREE_LIMIT <= new_lb <= 2 * TREE_LIMIT,

            tree_ect == ect,
            sum_p_prime == suffix_p(t, j as int),
            forall|k: int| i <= k < j ==> #[trigger] run_end(t, context, k) != ect,
            exists|jj: int| j <= jj < t.len() && #[trigger] run_end(t, context, jj) == ect,
        ensures
            ef_omega_prime_start(t, context, ect, i as int, j as int),
            sum_p_prime == suffix_p(t, j as int),
        decreases len - j,
    {
        proof {
            lemma_list_at(t, context, ect, total, j as int);
        }
        if tree_ect == context.lower_bound(tasks[j].0) + sum_p_prime {
            break;
        }
        sum_p_prime = sum_p_prime - tasks[j].1;
        j = j + 1;
    }
    let mut reason: Vec<Predicate> = Vec::new();
    let r = min_i32(curr_task_lb, context.lower_bound(tasks[i].0));
    let mut it = i;
    while it < len
        invariant
            i <= it <= len,
            len == t.len(),
            tasks@ == t,
            context.wf(),
            list_facts(t, context, ect, total),
            curr_task_lb == cl,
            -TREE_LIMIT <= cl <= TREE_LIMIT,
            curr_task.valid(context),
            0 <= p <= TREE_LIMIT,
            p == curr_task_p,
            -2 * TREE_LIMIT <= lct <= 2 * TREE_LIMIT,
            -2 * TREE_LIMIT <= new_lb <= 2 * TREE_LIMIT,

            r == min2(cl, t[i as int].0.view_lb(context)),
            sum_p == suffix_p(t, i as int),
            sum_p_prime == suffix_p(t, j as int),
            i <= j < len,
            reason@.len() == 2 * (it - i),
            forall|k: int|
                i <= k < it ==> {
                    &&& #[trigger] reason@[2 * (k - i)] == t[k].0.lower_bound_predicate_spec(
                        if k < j {
                            r as int
                        } else {
                            max2(new_lb - suffix_p(t, j as int), r as int)
                        },
                    )
                    &&& reason@[2 * (k - i) + 1] == t[k].0.upper_bound_predicate_spec(
                        r + suffix_p(t, i as int) + p - 1 - t[k].1,
                    )
                },
        decreases len - it,
    {
        proof {
            lemma_list_at(t, context, ect, total, it as int);
            lemma_list_at(t, context, ect, total, i as int);
            lemma_list_at(t, context, ect, total, j as int);
        }
        let (task, d, _) = tasks[it];
        let ghost prev = reason@;
        if it < j {
            reason.push(task.lower_bound_predicate(r));
        } else {
            reason.push(task.lower_bound_predicate(crate::theta_lambda_trees::max_i32(new_lb - sum_p_prime, r)));
        }
        reason.push(task.upper_bound_predicate(r + sum_p + curr_task_p - 1 - d));
        proof {
            assert forall|k: int| i <= k < it + 1 implies {
                &&& #[trigger] reason@[2 * (k - i)] == t[k].0.lower_bound_predicate_spec(
                    if k < j {
                        r as int
                    } else {
                        max2(new_lb - suffix_p(t, j as int), r as int)
                    },
                )
                &&& reason@[2 * (k - i) + 1] == t[k].0.upper_bound_predicate_spec(
                    r + suffix_p(t, i as int) + p - 1 - t[k].1,
                )
            } by {
                if k < it {
                    assert(reason@[2 * (k - i)] == prev[2 * (k - i)]);
                    assert(reason@[2 * (k - i) + 1] == prev[2 * (k - i) + 1]);
                }
            }
        }
        it = it + 1;
    }
    reason.push(curr_task.lower_bound_predicate(r));
    proof {
        assert(ef_reason(reason@, t, context, cl, curr_task, p, new_lb as int, i as int, j as int)) by {
            assert forall|k: int| i <= k < t.len() implies {
                &&& #[trigger] reason@[2 * (k - i)] == t[k].0.lower_bound_predicate_spec(
                    if k < j {
                        r as int
                    } else {
                        max2(new_lb - suffix_p(t, j as int), r as int)
                    },
                )
                &&& reason@[2 * (k - i) + 1] == t[k].0.upper_bound_predicate_spec(
                    r + suffix_p(t, i as int) + p - 1 - t[k].1,
                )
            } by {
                assert(reason@[2 * (k - i)] == reason@.drop_last()[2 * (k - i)]);
                assert(reason@[2 * (k - i) + 1] == reason@.drop_last()[2 * (k - i) + 1]);
            }
        }
    }
    reason
}

/// The durations of the theta list from `j2` on are at most those from `j1` on, for
/// `j1 <= j2`.
pub proof fn lemma_suffix_monotone(tree: &ThetaLambdaTree, a: &Assignments, j1: int, j2: int)
    requires
        tree.wf(),
        a.wf(),
        white_lbs_ok(tree, a),
        0 <= j1 <= j2 <= theta_entries(tree.leaves()).len(),
    ensures
        suffix_p(theta_entries(tree.leaves()), j2) <= suffix_p(theta_entries(tree.leaves()), j1),
    decreases j2 - j1,
{
    if j1 < j2 {
        lemma_theta_entry(tree, a, j1);
        lemma_suffix_monotone(tree, a, j1 + 1, j2);
    }
}

/// `x / 2` rounded toward zero.
pub open spec fn half_toward_zero(x: int) -> int {
    if x >= 0 {
        x / 2
    } else {
        -((-x) / 2)
    }
}

/// How far the tasks of theta from entry `k` on overrun `lct`, minus one.
pub open spec fn overload_delta(t: Seq<(IntVar, i32, bool)>, a: &Assignments, lct: int, k: int) -> int {
    suffix_p(t, k) - (lct - t[k].0.view_lb(a)) - 1
}

/// Entry `k0` starts the explained overloaded set: the first entry whose tasks from there
/// on still overrun `lct`, or the last entry.
pub open spec fn overload_start(t: Seq<(IntVar, i32, bool)>, a: &Assignments, lct: int, k0: int) -> bool {
    &&& 0 <= k0 < t.len()
    &&& (k0 == t.len() - 1 || overload_delta(t, a, lct, k0) >= 0)
    &&& forall|k: int| 0 <= k < k0 ==> #[trigger] overload_delta(t, a, lct, k) < 0
}

/// The window `[lo, hi]` in which the explanation keeps the tasks of theta from entry `k0`
/// on: the overrun `delta` is split between the two ends, the lower end not crossing zero
/// from above and the upper end not crossing zero from below.
pub open spec fn overload_window(est: int, lct: int, delta: int) -> (int, int) {
    let ol0 = half_toward_zero(delta);
    let ol1 = if est >= 0 && est - ol0 < 0 {
        est
    } else {
        ol0
    };
    let or1 = delta - ol1;
    if est < 0 && lct + or1 > 0 {
        (est - (ol1 + lct + or1), lct + lct)
    } else {
        (est - ol1, lct + or1)
    }
}

/// `r` explains the overload of the theta list `t` from entry `k0` on: each of its tasks
/// starts no earlier than the window's lower end and completes no later than its upper end.
pub open spec fn overload_reason(r: Seq<Predicate>, t: Seq<(IntVar, i32, bool)>, a: &Assignments, lct: int, k0: int) -> bool {
    let w = overload_window(t[k0].0.view_lb(a), lct, overload_delta(t, a, lct, k0));
    &&& r.len() == 2 * (t.len() - k0)
    &&& forall|k: int|
        k0 <= k < t.len() ==> {
            &&& #[trigger] r[2 * (k - k0)] == t[k].0.lower_bound_predicate_spec(w.0)
            &&& r[2 * (k - k0) + 1] == t[k].0.upper_bound_predicate_spec(w.1 - t[k].1)
        }
}

/// Explains why theta cannot complete by `lct`: the conflict holds the bounds of the tasks
/// of theta from the first entry whose tasks alone overrun `lct`, widened by the overrun.
#[verifier::rlimit(50)]
pub fn compute_overload_explanation(tree: ThetaLambdaTree, lct: i32, context: &Assignments) -> (r:
    Result<(), Inconsistency>)
    requires
        tree.wf(),
        context.wf(),
        white_lbs_ok(&tree, context),
        theta_entries(tree.leaves()).len() > 0,
        -2 * TREE_LIMIT <= lct <= 2 * TREE_LIMIT,
    ensures
        match r {
            Err(Inconsistency::Conflict(reason)) => exists|k0: int|
                #[trigger] overload_start(theta_entries(tree.leaves()), context, lct as int, k0)
                    && overload_reason(reason@, theta_entries(tree.leaves()), context, lct as int, k0),
            _ => false,
        },
{
    let mut tasks = tree.get_all_theta();
    let ghost t = tasks@;
    proof {
        context.lemma_bounds();
        lemma_theta_sum(&tree);
        assert forall|k: int| 0 <= k < t.len() implies {
            &&& (#[trigger] t[k]).0.valid(context)
            &&& 0 <= t[k].1 <= TREE_LIMIT
            &&& -TREE_LIMIT <= t[k].0.view_lb(context) <= TREE_LIMIT
            &&& run_end(t, context, k) <= ect_of(tree.leaves())
            &&& suffix_p(t, k) == t[k].1 + suffix_p(t, k + 1)
            &&& 0 <= suffix_p(t, k + 1) <= suffix_p(t, k) <= sum_p_of(tree.leaves())
        } by {
            lemma_theta_entry(&tree, context, k);
        }
    }
    let ghost total = sum_p_of(tree.leaves());
    let ghost ect = ect_of(tree.leaves());
    assert(list_facts(t, context, ect, total)) by {
        reveal(list_facts);
    }
    proof {
        lemma_list_at(t, context, ect, total, 0);
        lemma_list_ends(t, context, ect, total);
        crate::tree_spec::lemma_theta_marked(tree.leaves());
    }
    let len = tasks.len();
    let mut est = context.lower_bound(tasks[0].0);
    let mut sum_p = tree.sum_p();
    let mut delta = sum_p - (lct - est) - 1;
    let mut i: usize = 0;
    while i < len - 1
        invariant
            len == t.len(),
            len > 0,
            i < len,
            context.wf(),
            list_facts(t, context, ect, total),
            -2 * TREE_LIMIT <= lct <= 2 * TREE_LIMIT,
            tasks@.len() == len,
            forall|k: int| 0 <= k < i ==> (#[trigger] tasks@[k]) == (t[k].0, t[k].1, false),
            forall|k: int| i <= k < len ==> (#[trigger] tasks@[k]) == t[k],
            forall|k: int| 0 <= k < len ==> (#[trigger] t[k]).2,
            est == t[i as int].0.view_lb(context),
            sum_p == suffix_p(t, i as int),
            delta == overload_delta(t, context, lct as int, i as int),
            forall|k: int| 0 <= k < i ==> #[trigger] overload_delta(t, context, lct as int, k) < 0,
        ensures
            overload_start(t, context, lct as int, i as int),
            forall|k: int| 0 <= k < i ==> (#[trigger] tasks@[k]) == (t[k].0, t[k].1, false),
            forall|k: int| i <= k < len ==> (#[trigger] tasks@[k]) == t[k],
            est == t[i as int].0.view_lb(context),
            delta == overload_delta(t, context, lct as int, i as int),
        decreases len - i,
    {
        if delta >= 0 {
            break;
        }
        let (var, d, b) = tasks[i];
        if !b {
            i = i + 1;
            continue;
        }
        proof {
            lemma_list_at(t, context, ect, total, i as int);
            lemma_list_at(t, context, ect, total, i + 1);
        }
        tasks.set(i, (var, d, false));
        sum_p = sum_p - d;
        est = context.lower_bound(tasks[i + 1].0);
        delta = sum_p - (lct - est) - 1;
        i = i + 1;
    }
    let ghost k0 = i as int;
    let mut offset_left = delta / 2;
    if est >= 0 && est - offset_left < 0 {
        offset_left = est;
    }
    let mut offset_right = delta - offset_left;
    if est < 0 && lct + offset_right > 0 {
        offset_left = offset_left + lct + offset_right;
        offset_right = lct;
    }
    let ghost w = overload_window(est as int, lct as int, delta as int);
    assert(est - offset_left == w.0 && lct + offset_right == w.1);
    let mut reason: Vec<Predicate> = Vec::new();
    let mut k: usize = 0;
    while k < len
        invariant
            len == t.len(),
            0 <= k0 < len,
            k <= len,
            context.wf(),
            list_facts(t, context, ect, total),
            -2 * TREE_LIMIT <= lct <= 2 * TREE_LIMIT,
            tasks@.len() == len,
            forall|j: int| 0 <= j < k0 ==> (#[trigger] tasks@[j]) == (t[j].0, t[j].1, false),
            forall|j: int| k0 <= j < len ==> (#[trigger] tasks@[j]) == t[j],
            forall|j: int| 0 <= j < len ==> (#[trigger] t[j]).2,
            est - offset_left == w.0,
            lct + offset_right == w.1,
            -6 * TREE_LIMIT <= w.0 <= 6 * TREE_LIMIT,
            -6 * TREE_LIMIT <= w.1 <= 6 * TREE_LIMIT,
            reason@.len() == if k <= k0 { 0 } else { 2 * (k - k0) },
            forall|j: int|
                k0 <= j < k ==> {
                    &&& #[trigger] reason@[2 * (j - k0)] == t[j].0.lower_bound_predicate_spec(w.0)
                    &&& reason@[2 * (j - k0) + 1] == t[j].0.upper_bound_predicate_spec(w.1 - t[j].1)
                },
        decreases len - k,
    {
        let (var, d, b) = tasks[k];
        proof {
            lemma_list_at(t, context, ect, total, k as int);
        }
        let ghost prev = reason@;
        if b {
            reason.push(var.lower_bound_predicate(est - offset_left));
            reason.push(var.upper_bound_predicate(lct + offset_right - d));
            proof {
                assert forall|j: int| k0 <= j < k + 1 implies {
                    &&& #[trigger] reason@[2 * (j - k0)] == t[j].0.lower_bound_predicate_spec(w.0)
                    &&& reason@[2 * (j - k0) + 1] == t[j].0.upper_bound_predicate_spec(w.1 - t[j].1)
                } by {
                    if j < k {
                        assert(reason@[2 * (j - k0)] == prev[2 * (j - k0)]);
                        assert(reason@[2 * (j - k0) + 1] == prev[2 * (j - k0) + 1]);
                    }
                }
            }
        }
        k = k + 1;
    }
    assert(overload_reason(reason@, t, context, lct as int, k0));
    Err(Inconsistency::Conflict(reason))
}

/// When the task of gray leaf `g` is responsible for a completion time above `lct` (by
/// the run from `k`) and theta completes after `g` may start, the explanation finds the
/// first task of omega.
pub proof fn lemma_omega_exists(tree: &ThetaLambdaTree, a: &Assignments, g: int, k: int, lct: int)
    requires
        tree.wf(),
        a.wf(),
        white_lbs_ok(tree, a),
        0 <= k <= g < tree.leaves().len(),
        is_gray_leaf(tree.leaves()[g]),
        k == g || is_white(tree.leaves()[k]),
        term(whiten(tree.leaves(), g), k) > lct,
        ect_of(tree.leaves()) > est(tree.leaves()[g]),
    ensures
        exists|i: int|
            0 <= i < theta_entries(tree.leaves()).len() && #[trigger] ef_delta(
                theta_entries(tree.leaves()),
                a,
                est(tree.leaves()[g]),
                tree.leaves()[g].sum_p_bar as int,
                i,
            ) > lct,
{
    let l = tree.leaves();
    let t = theta_entries(l);
    let cl = est(l[g]);
    let p = l[g].sum_p_bar as int;
    let w = whiten(l, g);
    tree.lemma_root();
    assert(leaf_ok(l[g]));
    assert(est_sorted_at(tree, k, g));
    if k < g {
        // the run from white leaf k also contains g
        assert(w.skip(k + 1) =~= l.skip(k + 1).update(g - k - 1, whitened(l[g])));
        lemma_sum_p_update(l.skip(k + 1), g - k - 1, whitened(l[g]));
        assert(l.skip(k + 1)[g - k - 1] == l[g]);
        assert(w[k] == l[k]);
        lemma_white_entry(l, k);
        let jk = theta_entries(l.take(k)).len() as int;
        lemma_run_from(l, k);
        assert(ef_delta(t, a, cl, p, jk) > lct);
    } else {
        assert(w.skip(g + 1) =~= l.skip(g + 1));
        assert(w[g] == whitened(l[g]));
        crate::theta_lambda_trees::lemma_entries_split(l, g + 1);
        let jstar = theta_entries(l.take(g + 1)).len() as int;
        let rest = l.skip(g + 1);
        crate::tree_spec::lemma_leaf_ok_subrange(l, g + 1, l.len() as int);
        assert(rest =~= l.subrange(g + 1, l.len() as int));
        lemma_sum_entries(rest);
        if jstar < t.len() {
            lemma_entry_white(rest, 0);
            let q1 = choose|q: int| #[trigger] entry_at(rest, 0, q);
            let q = g + 1 + q1;
            assert(rest[q1] == l[q]);
            assert(t[jstar] == theta_entries(rest)[0]);
            assert(t.skip(jstar) =~= theta_entries(rest));
            assert(rest.skip(0) =~= rest);
            assert(est_sorted_at(tree, g, q));
            assert(t[jstar].0.view_lb(a) == est(l[q]));
            assert(ef_delta(t, a, cl, p, jstar) > lct);
        } else {
            assert(theta_entries(rest).len() == 0);
            assert(theta_entries(rest) =~= Seq::<(IntVar, i32, bool)>::empty());
            assert(sum_p_of(rest) == 0);
            // theta completes after g starts, so it has a run before g
            if !has_white(l) {
                lemma_no_white(l);
                assert(false);
            }
            assert(t.len() > 0) by {
                let q = choose|q: int| 0 <= q < l.len() && #[trigger] is_white(l[q]);
                lemma_white_entry(l, q);
            }
            lemma_theta_attained(tree, a);
            let j1 = choose|j: int| 0 <= j < t.len() && #[trigger] run_end(t, a, j) == ect_of(l);
            lemma_entry_white(l, j1);
            let q1 = choose|q: int| #[trigger] entry_at(l, j1, q);
            if q1 > g {
                assert(rest.skip(q1 - g - 1) =~= l.skip(q1));
                crate::theta_lambda_trees::lemma_entries_split(rest, q1 - g - 1);
                assert(theta_entries(l.skip(q1)).len() > 0);
                assert(false);
            }
            assert(q1 != g);
            assert(est_sorted_at(tree, q1, g));
            assert(t[j1].0.view_lb(a) == est(l[q1]));
            assert(ef_delta(t, a, cl, p, j1) > lct);
        }
    }
}

/// Leaves `x <= y` of the tree, both holding a task, start in that order.
pub open spec fn est_sorted_at(tree: &ThetaLambdaTree, x: int, y: int) -> bool {
    0 <= x <= y < tree.leaves().len() && !is_empty_leaf(tree.leaves()[x]) && !is_empty_leaf(tree.leaves()[y])
        ==> est(tree.leaves()[x]) <= est(tree.leaves()[y])
}

/// Latest completion time of a task.
pub open spec fn lct_of(t: DisjunctiveTask, a: &Assignments) -> int {
    t.start_times.view_ub(a) + t.duration
}

/// Keys that order tasks by decreasing latest completion time.
pub open spec fn lct_keys(tasks: Seq<DisjunctiveTask>, a: &Assignments) -> Seq<i32> {
    tasks.map_values(|t: DisjunctiveTask| (-lct_of(t, a)) as i32)
}

/// Position of task `t` in the order `co`.
pub open spec fn rank(co: Seq<usize>, t: int) -> int {
    choose|a: int| 0 <= a < co.len() && co[a] == t
}

/// The leaves, in the order `lo` and padded to `m`, of the tasks at positions `b` and later
/// of `co`, and of task `extra`.
pub open spec fn set_leaves(
    tasks: Seq<DisjunctiveTask>,
    a: &Assignments,
    lo: Seq<usize>,
    co: Seq<usize>,
    b: int,
    extra: int,
    m: int,
) -> Seq<Node> {
    Seq::new(
        m as nat,
        |q: int|
            if q < lo.len() && (rank(co, lo[q] as int) >= b || lo[q] as int == extra) {
                task_leaf(task_pairs(tasks)[lo[q] as int], a)
            } else {
                unused_leaf()
            },
    )
}

/// Earliest completion time of the tasks at positions `b` and later of `co` (theta).
pub open spec fn theta_ect(tasks: Seq<DisjunctiveTask>, a: &Assignments, lo: Seq<usize>, co: Seq<usize>, b: int) -> int {
    ect_of(set_leaves(tasks, a, lo, co, b, -1, tasks.len() as int))
}

/// Earliest completion time of theta and task `i`.
pub open spec fn theta_ect_with(
    tasks: Seq<DisjunctiveTask>,
    a: &Assignments,
    lo: Seq<usize>,
    co: Seq<usize>,
    b: int,
    i: int,
) -> int {
    ect_of(set_leaves(tasks, a, lo, co, b, i, tasks.len() as int))
}

/// No set of the tasks from position `b2 < b` of `co` on completes after the latest
/// completion of its first task.
pub open spec fn no_overload_before(tasks: Seq<DisjunctiveTask>, a0: &Assignments, lo: Seq<usize>, co: Seq<usize>, b: int) -> bool {
    forall|b2: int| 0 <= b2 < b ==> #[trigger] theta_ect(tasks, a0, lo, co, b2) <= lct_of(tasks[co[b2] as int], a0)
}

/// The edge-finding rule holds for theta from position `b`: a task before `b` that, with
/// theta, cannot complete by the latest completion of theta's first task starts after theta
/// completes.
pub open spec fn edge_found(tasks: Seq<DisjunctiveTask>, a0: &Assignments, a: &Assignments, lo: Seq<usize>, co: Seq<usize>, b: int) -> bool {
    forall|i: int|
        0 <= i < tasks.len() && rank(co, i) < b && theta_ect_with(tasks, a0, lo, co, b, i) > lct_of(tasks[co[b] as int], a0)
            ==> #[trigger] tasks[i].start_times.view_lb(a) >= theta_ect(tasks, a0, lo, co, b)
}

/// Task `i` got the lower bound it has in `a` from the edge-finding rule for some theta
/// from position `b2 <= b`, or has its lower bound of `a0`.
pub open spec fn justified(tasks: Seq<DisjunctiveTask>, a0: &Assignments, a: &Assignments, lo: Seq<usize>, co: Seq<usize>, b: int) -> bool {
    forall|i: int|
        0 <= i < tasks.len() ==> {
            ||| #[trigger] tasks[i].start_times.view_lb(a) == tasks[i].start_times.view_lb(a0)
            ||| exists|b2: int|
                1 <= b2 <= b && rank(co, i) < b2 && theta_ect_with(tasks, a0, lo, co, b2, i) > lct_of(tasks[co[b2] as int], a0)
                    && tasks[i].start_times.view_lb(a) == #[trigger] theta_ect(tasks, a0, lo, co, b2)
        }
}

/// What a successful pass of edge finding establishes: no overload, the edge-finding rule
/// for every theta, and each lower bound raised only by that rule.
pub open spec fn edge_finding_done(tasks: Seq<DisjunctiveTask>, a0: &Assignments, a: &Assignments, lo: Seq<usize>, co: Seq<usize>) -> bool {
    &&& no_overload_before(tasks, a0, lo, co, tasks.len() as int)
    &&& forall|b: int| 1 <= b < tasks.len() ==> #[trigger] edge_found(tasks, a0, a, lo, co, b)
    &&& justified(tasks, a0, a, lo, co, tasks.len() - 1)
}

/// The conflict found by edge finding: the first overloaded theta, explained from its theta
/// list.
pub open spec fn overload_found(tasks: Seq<DisjunctiveTask>, a0: &Assignments, a: &Assignments, lo: Seq<usize>, co: Seq<usize>, reason: Seq<Predicate>) -> bool {
    exists|b: int|
        {
            &&& 0 <= b < tasks.len() - 1
            &&& no_overload_before(tasks, a0, lo, co, b)
            &&& no_overflow_before(tasks, a0, lo, co, b)
            &&& #[trigger] theta_ect(tasks, a0, lo, co, b) > lct_of(tasks[co[b] as int], a0)
            &&& exists|k0: int|
                #[trigger] overload_start(theta_entries(set_leaves(tasks, a0, lo, co, b, -1, tasks.len() as int)), a, lct_of(tasks[co[b] as int], a0), k0)
                    && overload_reason(reason, theta_entries(set_leaves(tasks, a0, lo, co, b, -1, tasks.len() as int)), a, lct_of(tasks[co[b] as int], a0), k0)
        }
}

/// The edge-finding rule for theta from position `b` of `co`, with no overload before `b`,
/// makes task `i` start after theta completes, which is later than the latest start of `i`.
pub open spec fn raise_overflows(tasks: Seq<DisjunctiveTask>, a0: &Assignments, lo: Seq<usize>, co: Seq<usize>, b: int, i: int) -> bool {
    &&& 1 <= b < tasks.len()
    &&& 0 <= i < tasks.len()
    &&& rank(co, i) < b
    &&& no_overload_before(tasks, a0, lo, co, b)
    &&& theta_ect_with(tasks, a0, lo, co, b, i) > lct_of(tasks[co[b] as int], a0)
    &&& theta_ect(tasks, a0, lo, co, b) > tasks[i].start_times.view_ub(a0)
}

/// No edge-finding rule for a theta from a position before `b` makes a task start later
/// than its latest start.
pub open spec fn no_overflow_before(tasks: Seq<DisjunctiveTask>, a0: &Assignments, lo: Seq<usize>, co: Seq<usize>, b: int) -> bool {
    forall|b2: int, i: int| b2 < b ==> !#[trigger] raise_overflows(tasks, a0, lo, co, b2, i)
}

/// Where edge finding has held for every theta before position `b`, no rule for those
/// thetas asks for more than a latest start.
pub proof fn lemma_no_overflow_before(tasks: Seq<DisjunctiveTask>, a0: &Assignments, a: &Assignments, lo: Seq<usize>, co: Seq<usize>, b: int)
    requires
        ef_orders(tasks, a0, lo, co),
        ef_frame(tasks, a0, a),
        forall|b2: int| 1 <= b2 < b ==> #[trigger] edge_found(tasks, a0, a, lo, co, b2),
    ensures
        no_overflow_before(tasks, a0, lo, co, b),
{
    a.lemma_bounds();
    assert forall|b2: int, i: int| b2 < b implies !#[trigger] raise_overflows(tasks, a0, lo, co, b2, i) by {
        if raise_overflows(tasks, a0, lo, co, b2, i) {
            assert(edge_found(tasks, a0, a, lo, co, b2));
            assert(tasks[i].start_times.view_lb(a) >= theta_ect(tasks, a0, lo, co, b2));
            assert(tasks[i].start_times.valid(a0));
            assert(tasks[i].start_times.view_ub(a) == tasks[i].start_times.view_ub(a0));
        }
    }
}

/// The tasks edge finding accepts: at least one; valid views; non-negative durations of
/// total at most `DOMAIN_LIMIT`, so that every sum the tree forms stays within `i32`; and
/// pairwise distinct domains. The tree finds a task by its domain when it moves it to
/// lambda or removes it, so two tasks on one domain would be confused with each other:
/// the move or removal could hit the other task's leaf, and removal could then repeat
/// without end.
pub open spec fn ef_tasks_ok(tasks: Seq<DisjunctiveTask>, a: &Assignments) -> bool {
    &&& a.wf()
    &&& 0 < tasks.len() <= usize::MAX / 16
    &&& forall|i: int| 0 <= i < tasks.len() ==> (#[trigger] tasks[i]).start_times.valid(a) && 0 <= tasks[i].duration
    &&& sum_int(durations_of(task_pairs(tasks))) <= DOMAIN_LIMIT
    &&& forall|i: int, j: int|
        0 <= i < j < tasks.len() ==> (#[trigger] tasks[i]).start_times.domain != (#[trigger] tasks[j]).start_times.domain
}

/// No task starts on domain `d`.
pub open spec fn task_free_domain(tasks: Seq<DisjunctiveTask>, d: int) -> bool {
    forall|i: int| 0 <= i < tasks.len() ==> #[trigger] tasks[i].start_times.domain != d
}

/// Edge finding changes bounds only by raising the lower bounds of the task views, and only
/// appends explanations.
pub open spec fn ef_frame(tasks: Seq<DisjunctiveTask>, a0: &Assignments, a: &Assignments) -> bool {
    &&& a.wf()
    &&& a.num_domains() == a0.num_domains()
    &&& forall|i: int|
        0 <= i < tasks.len() ==> #[trigger] tasks[i].start_times.view_ub(a) == tasks[i].start_times.view_ub(a0)
            && tasks[i].start_times.view_lb(a) >= tasks[i].start_times.view_lb(a0)
    &&& forall|d: int|
        #![trigger a.lb(d)]
        #![trigger a.ub(d)]
        0 <= d < a0.num_domains() && task_free_domain(tasks, d) ==> a.lb(d) == a0.lb(d) && a.ub(d) == a0.ub(d)
    &&& a0.explanations().len() <= a.explanations().len()
    &&& a.explanations().subrange(0, a0.explanations().len() as int) == a0.explanations()
}

/// The leaves of the tree hold theta from position `b` of `co` white, the other tasks gray
/// or removed, in the order `lo`.
pub open spec fn tree_state(tree: &ThetaLambdaTree, tasks: Seq<DisjunctiveTask>, a0: &Assignments, lo: Seq<usize>, co: Seq<usize>, b: int) -> bool {
    let l0 = leaves_for(task_pairs(tasks), a0, lo, tree.n + 1);
    &&& tree.wf()
    &&& lo.len() == tasks.len()
    &&& lo.len() <= tree.n + 1
    &&& forall|q: int|
        0 <= q <= tree.n ==> if q < lo.len() && rank(co, lo[q] as int) >= b {
            #[trigger] tree.leaves()[q] == l0[q]
        } else {
            tree.leaves()[q] == grayed(l0[q]) || tree.leaves()[q] == emptied(l0[q])
        }
}

/// Tasks still in the tree keep their lower bounds; removed ones start no earlier than
/// theta completes.
pub open spec fn lbs_state(tree: &ThetaLambdaTree, tasks: Seq<DisjunctiveTask>, a0: &Assignments, a: &Assignments, lo: Seq<usize>, co: Seq<usize>, b: int) -> bool {
    forall|q: int|
        0 <= q < lo.len() ==> {
            &&& !is_empty_leaf(#[trigger] tree.leaves()[q]) ==> tasks[lo[q] as int].start_times.view_lb(a)
                == tasks[lo[q] as int].start_times.view_lb(a0)
            &&& is_empty_leaf(tree.leaves()[q]) ==> tasks[lo[q] as int].start_times.view_lb(a) >= theta_ect(tasks, a0, lo, co, b)
        }
}

/// Positions in a stable order are unique.
pub proof fn lemma_rank(co: Seq<usize>, keys: Seq<i32>)
    requires
        is_stable_order(co, keys),
        co.len() <= usize::MAX,
    ensures
        forall|x: int| 0 <= x < co.len() ==> rank(co, #[trigger] co[x] as int) == x,
        forall|t: int| 0 <= t < co.len() ==> 0 <= #[trigger] rank(co, t) < co.len() && co[rank(co, t)] == t,
{
    crate::sorting::lemma_stable_order_distinct(co, keys);
    assert forall|t: int| 0 <= t < co.len() implies 0 <= #[trigger] rank(co, t) < co.len() && co[rank(co, t)] == t by {
        assert(co.contains(t as usize));
        let a = choose|a: int| 0 <= a < co.len() && co[a] == t as usize;
        assert(co[a] == t);
    }
    assert forall|x: int| 0 <= x < co.len() implies rank(co, #[trigger] co[x] as int) == x by {
        let t = co[x] as int;
        assert(co[x] < keys.len());
        assert(co.contains(t as usize));
        let y = rank(co, t);
        if y != x {
            if y < x {
                assert(co[y] != co[x]);
            } else {
                assert(co[x] != co[y]);
            }
        }
    }
}

/// The facts on the tasks and orders that the proofs of edge finding use.
pub open spec fn ef_orders(tasks: Seq<DisjunctiveTask>, a0: &Assignments, lo: Seq<usize>, co: Seq<usize>) -> bool {
    &&& ef_tasks_ok(tasks, a0)
    &&& tasks_ok(task_pairs(tasks), a0)
    &&& is_stable_order(lo, lb_keys(task_pairs(tasks), a0))
    &&& is_stable_order(co, lct_keys(tasks, a0))
}

pub proof fn lemma_orders(tasks: Seq<DisjunctiveTask>, a0: &Assignments, lo: Seq<usize>, co: Seq<usize>)
    requires
        ef_orders(tasks, a0, lo, co),
    ensures
        forall|x: int| 0 <= x < co.len() ==> rank(co, #[trigger] co[x] as int) == x,
        forall|t: int| 0 <= t < co.len() ==> 0 <= #[trigger] rank(co, t) < co.len() && co[rank(co, t)] == t,
        forall|x: int| 0 <= x < lo.len() ==> rank(lo, #[trigger] lo[x] as int) == x,
        forall|t: int| 0 <= t < lo.len() ==> 0 <= #[trigger] rank(lo, t) < lo.len() && lo[rank(lo, t)] == t,
        co.len() == tasks.len(),
        lo.len() == tasks.len(),
        forall|x: int| 0 <= x < co.len() ==> #[trigger] co[x] < tasks.len(),
        forall|x: int| 0 <= x < lo.len() ==> #[trigger] lo[x] < tasks.len(),
        forall|x: int, y: int| 0 <= x < y < lo.len() ==> #[trigger] lo[x] != #[trigger] lo[y],
{
    lemma_rank(co, lct_keys(tasks, a0));
    lemma_rank(lo, lb_keys(task_pairs(tasks), a0));
    crate::sorting::lemma_stable_order_distinct(lo, lb_keys(task_pairs(tasks), a0));
}

/// Every leaf of a set of tasks is valid.
pub proof fn lemma_set_leaves_ok(tasks: Seq<DisjunctiveTask>, a0: &Assignments, lo: Seq<usize>, co: Seq<usize>, b: int, extra: int, m: int)
    requires
        ef_orders(tasks, a0, lo, co),
        m >= 0,
    ensures
        all_leaf_ok(set_leaves(tasks, a0, lo, co, b, extra, m)),
{
    lemma_orders(tasks, a0, lo, co);
    let s = set_leaves(tasks, a0, lo, co, b, extra, m);
    assert forall|q: int| 0 <= q < s.len() implies #[trigger] leaf_ok(s[q]) by {
        if q < lo.len() && (rank(co, lo[q] as int) >= b || lo[q] as int == extra) {
            lemma_task_leaf(task_pairs(tasks), a0, lo[q] as int);
        }
    }
}

/// Theta from position `b` completes as the set leaves say, whatever their padding.
pub proof fn lemma_set_pad(tasks: Seq<DisjunctiveTask>, a0: &Assignments, lo: Seq<usize>, co: Seq<usize>, b: int, extra: int, m: int)
    requires
        ef_orders(tasks, a0, lo, co),
        m >= tasks.len(),
    ensures
        ect_of(set_leaves(tasks, a0, lo, co, b, extra, m)) == ect_of(set_leaves(tasks, a0, lo, co, b, extra, tasks.len() as int)),
        sum_p_of(set_leaves(tasks, a0, lo, co, b, extra, m)) == sum_p_of(set_leaves(tasks, a0, lo, co, b, extra, tasks.len() as int)),
        theta_entries(set_leaves(tasks, a0, lo, co, b, extra, m)) == theta_entries(set_leaves(tasks, a0, lo, co, b, extra, tasks.len() as int)),
{
    let n = tasks.len() as int;
    let s = set_leaves(tasks, a0, lo, co, b, extra, n);
    let e = Seq::new((m - n) as nat, |q: int| unused_leaf());
    lemma_orders(tasks, a0, lo, co);
    assert(set_leaves(tasks, a0, lo, co, b, extra, m) =~= s + e);
    lemma_set_leaves_ok(tasks, a0, lo, co, b, extra, n);
    lemma_pad_empty(s, e);
}

/// The tree's theta is theta from position `b`.
pub proof fn lemma_tree_theta(tree: &ThetaLambdaTree, tasks: Seq<DisjunctiveTask>, a0: &Assignments, lo: Seq<usize>, co: Seq<usize>, b: int)
    requires
        ef_orders(tasks, a0, lo, co),
        tree_state(tree, tasks, a0, lo, co, b),
    ensures
        ect_of(tree.leaves()) == theta_ect(tasks, a0, lo, co, b),
        theta_entries(tree.leaves()) == theta_entries(set_leaves(tasks, a0, lo, co, b, -1, tasks.len() as int)),
{
    let m = tree.n + 1;
    let l = tree.leaves();
    let sm = set_leaves(tasks, a0, lo, co, b, -1, m);
    let l0 = leaves_for(task_pairs(tasks), a0, lo, m);
    tree.lemma_root();
    lemma_orders(tasks, a0, lo, co);
    assert forall|q: int| 0 <= q < l.len() implies #[trigger] l[q].ect == sm[q].ect && l[q].sum_p == sm[q].sum_p by {
        assert(tree.leaves()[q] == l[q]);
        if q < lo.len() && rank(co, lo[q] as int) >= b {
            assert(l[q] == l0[q]);
        } else {
            assert(l[q] == grayed(l0[q]) || l[q] == emptied(l0[q]));
        }
    }
    assert forall|q: int| 0 <= q < l.len() && #[trigger] l[q].ect != i32::MIN implies l[q].node_id == sm[q].node_id by {
        assert(tree.leaves()[q] == l[q]);
        if q < lo.len() && rank(co, lo[q] as int) >= b {
            assert(l[q] == l0[q]);
        } else {
            assert(l[q] == grayed(l0[q]) || l[q] == emptied(l0[q]));
        }
    }
    lemma_same_theta(l, sm);
    lemma_set_pad(tasks, a0, lo, co, b, -1, m);
}

/// With the task of gray leaf `q` put back, the tree's theta is theta from position `b`
/// with that task.
pub proof fn lemma_tree_theta_with(tree: &ThetaLambdaTree, tasks: Seq<DisjunctiveTask>, a0: &Assignments, lo: Seq<usize>, co: Seq<usize>, b: int, q: int)
    requires
        ef_orders(tasks, a0, lo, co),
        tree_state(tree, tasks, a0, lo, co, b),
        0 <= q < lo.len(),
        tree.leaves()[q] == grayed(leaves_for(task_pairs(tasks), a0, lo, tree.n + 1)[q]),
        rank(co, lo[q] as int) < b,
    ensures
        ect_of(whiten_leaves(tree.leaves(), q)) == theta_ect_with(tasks, a0, lo, co, b, lo[q] as int),
{
    let m = tree.n + 1;
    let l = tree.leaves();
    let w = whiten_leaves(l, q);
    let i = lo[q] as int;
    let sm = set_leaves(tasks, a0, lo, co, b, i, m);
    let l0 = leaves_for(task_pairs(tasks), a0, lo, m);
    tree.lemma_root();
    lemma_orders(tasks, a0, lo, co);
    lemma_task_leaf(task_pairs(tasks), a0, i);
    assert forall|x: int| 0 <= x < w.len() implies #[trigger] w[x].ect == sm[x].ect && w[x].sum_p == sm[x].sum_p by {
        assert(tree.leaves()[x] == l[x]);
        if x == q {
        } else {
            assert(w[x] == l[x]);
            if x < lo.len() {
                if lo[x] == lo[q] {
                    if x < q {
                        assert(lo[x] != lo[q]);
                    } else {
                        assert(lo[q] != lo[x]);
                    }
                }
            }
            if x < lo.len() && rank(co, lo[x] as int) >= b {
                assert(l[x] == l0[x]);
            } else {
                assert(l[x] == grayed(l0[x]) || l[x] == emptied(l0[x]));
            }
        }
    }
    lemma_same_theta(w, sm);
    lemma_set_pad(tasks, a0, lo, co, b, i, m);
}

/// Theta from a later position completes no later.
pub proof fn lemma_theta_monotone(tasks: Seq<DisjunctiveTask>, a0: &Assignments, lo: Seq<usize>, co: Seq<usize>, b1: int, b2: int)
    requires
        ef_orders(tasks, a0, lo, co),
        b1 <= b2,
    ensures
        theta_ect(tasks, a0, lo, co, b2) <= theta_ect(tasks, a0, lo, co, b1),
{
    let n = tasks.len() as int;
    let s1 = set_leaves(tasks, a0, lo, co, b1, -1, n);
    let s2 = set_leaves(tasks, a0, lo, co, b2, -1, n);
    lemma_orders(tasks, a0, lo, co);
    assert forall|q: int| 0 <= q < s2.len() implies #[trigger] s2[q].ect <= s1[q].ect && s2[q].sum_p <= s1[q].sum_p by {
        if q < lo.len() && rank(co, lo[q] as int) >= b1 {
            lemma_task_leaf(task_pairs(tasks), a0, lo[q] as int);
        }
    }
    lemma_ect_monotone(s2, s1);
}

/// The last task alone never overruns its latest completion.
pub proof fn lemma_theta_last(tasks: Seq<DisjunctiveTask>, a0: &Assignments, lo: Seq<usize>, co: Seq<usize>)
    requires
        ef_orders(tasks, a0, lo, co),
    ensures
        theta_ect(tasks, a0, lo, co, tasks.len() - 1) <= lct_of(tasks[co[tasks.len() - 1] as int], a0),
{
    let n = tasks.len() as int;
    let s = set_leaves(tasks, a0, lo, co, n - 1, -1, n);
    lemma_orders(tasks, a0, lo, co);
    let t = co[n - 1] as int;
    let q = rank(lo, t);
    assert(lo[q] == t);
    assert(rank(co, t) == n - 1);
    lemma_task_leaf(task_pairs(tasks), a0, t);
    lemma_set_leaves_ok(tasks, a0, lo, co, n - 1, -1, n);
    assert forall|k: int| 0 <= k < s.len() && k != q implies !#[trigger] is_white(s[k]) by {
        if k < lo.len() && rank(co, lo[k] as int) >= n - 1 {
            assert(rank(co, lo[k] as int) < n);
            assert(co[rank(co, lo[k] as int)] == lo[k]);
            assert(lo[k] as int == t);
            if k < q {
                assert(lo[k] != lo[q]);
            } else {
                assert(lo[q] != lo[k]);
            }
        }
    }
    lemma_single_white(s, q);
    assert(tasks[t].start_times.valid(a0));
    a0.lemma_bounds();
}

/// A pass of edge finding over `tasks` took the bounds from `a0` to `a` with result `r`:
/// only task lower bounds were raised, and, for the orders by earliest start (`lo`) and by
/// decreasing latest completion (`co`), one explanation is recorded for each task whose
/// lower bound changed, by the first theta at which the rule applies to it, in the order
/// of those thetas' positions; success means the rule holds and every raise came from it;
/// a conflict is the first overloaded theta with its explanation; an emptied domain is the
/// first rule that asks a task to start after its latest start.
pub open spec fn ef_pass(tasks: Seq<DisjunctiveTask>, a0: &Assignments, a: &Assignments, r: Result<(), Inconsistency>) -> bool {
    &&& ef_frame(tasks, a0, a)
    &&& exists|lo: Seq<usize>, co: Seq<usize>|
        {
            &&& #[trigger] ef_orders(tasks, a0, lo, co)
            &&& exists|raised: Seq<int>, at: Seq<int>| #[trigger] raises_listed(tasks, a0, a, lo, co, raised, at)
            &&& r is Ok ==> edge_finding_done(tasks, a0, a, lo, co)
            &&& match r {
                Err(Inconsistency::Conflict(reason)) => overload_found(tasks, a0, a, lo, co, reason@),
                Err(Inconsistency::EmptyDomain) => exists|b: int, i: int|
                    #[trigger] raise_overflows(tasks, a0, lo, co, b, i) && no_overflow_before(tasks, a0, lo, co, b),
                _ => true,
            }
        }
}

/// The white leaves of a tree in `tree_state` hold tasks whose lower bounds are their
/// earliest start times.
pub proof fn lemma_white_lbs(tree: &ThetaLambdaTree, tasks: Seq<DisjunctiveTask>, a0: &Assignments, a: &Assignments, lo: Seq<usize>, co: Seq<usize>, b: int)
    requires
        ef_orders(tasks, a0, lo, co),
        tree_state(tree, tasks, a0, lo, co, b),
        lbs_state(tree, tasks, a0, a, lo, co, b),
        ef_frame(tasks, a0, a),
    ensures
        white_lbs_ok(tree, a),
{
    lemma_orders(tasks, a0, lo, co);
    let l0 = leaves_for(task_pairs(tasks), a0, lo, tree.n + 1);
    tree.lemma_root();
    assert forall|q: int| 0 <= q < tree.leaves().len() && #[trigger] is_white(tree.leaves()[q]) implies {
        &&& tree.leaves()[q].node_id.unwrap().1.valid(a)
        &&& tree.leaves()[q].node_id.unwrap().1.view_lb(a) == est(tree.leaves()[q])
    } by {
        if q < lo.len() && rank(co, lo[q] as int) >= b {
            assert(tree.leaves()[q] == l0[q]);
            let t = lo[q] as int;
            lemma_task_leaf(task_pairs(tasks), a0, t);
            assert(tasks[t].start_times.valid(a0));
            assert(!is_empty_leaf(tree.leaves()[q]));
        } else {
            assert(tree.leaves()[q] == grayed(l0[q]) || tree.leaves()[q] == emptied(l0[q]));
        }
    }
}

/// The white leaves of a tree in `tree_state` have their earliest start times as lower
/// bounds under the bounds the tree was built from.
pub proof fn lemma_white_lbs_first(tree: &ThetaLambdaTree, tasks: Seq<DisjunctiveTask>, a0: &Assignments, lo: Seq<usize>, co: Seq<usize>, b: int)
    requires
        ef_orders(tasks, a0, lo, co),
        tree_state(tree, tasks, a0, lo, co, b),
    ensures
        white_lbs_ok(tree, a0),
{
    lemma_orders(tasks, a0, lo, co);
    let l0 = leaves_for(task_pairs(tasks), a0, lo, tree.n + 1);
    tree.lemma_root();
    assert forall|q: int| 0 <= q < tree.leaves().len() && #[trigger] is_white(tree.leaves()[q]) implies {
        &&& tree.leaves()[q].node_id.unwrap().1.valid(a0)
        &&& tree.leaves()[q].node_id.unwrap().1.view_lb(a0) == est(tree.leaves()[q])
    } by {
        if q < lo.len() && rank(co, lo[q] as int) >= b {
            assert(tree.leaves()[q] == l0[q]);
            let t = lo[q] as int;
            lemma_task_leaf(task_pairs(tasks), a0, t);
            assert(tasks[t].start_times.valid(a0));
        } else {
            assert(tree.leaves()[q] == grayed(l0[q]) || tree.leaves()[q] == emptied(l0[q]));
        }
    }
}

/// Under two bounds for which the white leaves have their earliest start times as lower
/// bounds, the entries of the theta list have the same lower bounds.
pub proof fn lemma_entries_same_lbs(tree: &ThetaLambdaTree, a: &Assignments, a2: &Assignments)
    requires
        tree.wf(),
        white_lbs_ok(tree, a),
        white_lbs_ok(tree, a2),
    ensures
        forall|k: int|
            0 <= k < theta_entries(tree.leaves()).len() ==> (#[trigger] theta_entries(tree.leaves())[k]).0.view_lb(a)
                == theta_entries(tree.leaves())[k].0.view_lb(a2),
{
    tree.lemma_root();
    let l = tree.leaves();
    assert forall|k: int| 0 <= k < theta_entries(l).len() implies (#[trigger] theta_entries(l)[k]).0.view_lb(a)
        == theta_entries(l)[k].0.view_lb(a2) by {
        lemma_entry_white(l, k);
        let q = choose|q: int| #[trigger] entry_at(l, k, q);
        assert(is_white(l[q]));
    }
}

/// The explanation of a raise reads the bounds only through the lower bounds of the
/// entries of the theta list.
pub proof fn lemma_reason_frame(
    t: Seq<(IntVar, i32, bool)>,
    a: &Assignments,
    a2: &Assignments,
    r: Seq<Predicate>,
    cl: int,
    curr: IntVar,
    p: int,
    lct: int,
    ect: int,
    new_lb: int,
    i: int,
    j: int,
)
    requires
        forall|k: int| 0 <= k < t.len() ==> (#[trigger] t[k]).0.view_lb(a) == t[k].0.view_lb(a2),
        0 <= i,
    ensures
        ef_omega_start(t, a, cl, p, lct, i) == ef_omega_start(t, a2, cl, p, lct, i),
        ef_omega_prime_start(t, a, ect, i, j) == ef_omega_prime_start(t, a2, ect, i, j),
        0 <= i < t.len() ==> ef_reason(r, t, a, cl, curr, p, new_lb, i, j) == ef_reason(r, t, a2, cl, curr, p, new_lb, i, j),
{
    assert forall|k: int| 0 <= k < t.len() implies #[trigger] ef_delta(t, a, cl, p, k) == ef_delta(t, a2, cl, p, k) by {
        assert(t[k].0.view_lb(a) == t[k].0.view_lb(a2));
    }
    assert forall|k: int| 0 <= k < t.len() implies #[trigger] run_end(t, a, k) == run_end(t, a2, k) by {
        assert(t[k].0.view_lb(a) == t[k].0.view_lb(a2));
    }
    if ef_omega_start(t, a, cl, p, lct, i) {
        assert forall|k: int| 0 <= k < i implies #[trigger] ef_delta(t, a2, cl, p, k) <= lct by {
            assert(ef_delta(t, a, cl, p, k) <= lct);
        }
    }
    if ef_omega_start(t, a2, cl, p, lct, i) {
        assert forall|k: int| 0 <= k < i implies #[trigger] ef_delta(t, a, cl, p, k) <= lct by {
            assert(ef_delta(t, a2, cl, p, k) <= lct);
        }
    }
    if ef_omega_prime_start(t, a, ect, i, j) {
        assert forall|k: int| i <= k < j implies #[trigger] run_end(t, a2, k) != ect by {
            assert(run_end(t, a, k) != ect);
        }
    }
    if ef_omega_prime_start(t, a2, ect, i, j) {
        assert forall|k: int| i <= k < j implies #[trigger] run_end(t, a, k) != ect by {
            assert(run_end(t, a2, k) != ect);
        }
    }
    if 0 <= i < t.len() {
        assert(t[i].0.view_lb(a) == t[i].0.view_lb(a2));
    }
}

/// The theta list of theta from position `b` of `co`.
pub open spec fn theta_list(tasks: Seq<DisjunctiveTask>, a0: &Assignments, lo: Seq<usize>, co: Seq<usize>, b: int) -> Seq<(IntVar, i32, bool)> {
    theta_entries(set_leaves(tasks, a0, lo, co, b, -1, tasks.len() as int))
}

/// `e` records raising task `i` to the completion time of theta from position `b` of
/// `co` by the edge-finding rule, with the explanation `compute_edge_finding_explanations`
/// gives (omega from entry `oi`, omega' from entry `oj` of the theta list).
pub open spec fn raise_explained_by(
    tasks: Seq<DisjunctiveTask>,
    a0: &Assignments,
    lo: Seq<usize>,
    co: Seq<usize>,
    e: (Predicate, Vec<Predicate>),
    b: int,
    i: int,
    oi: int,
    oj: int,
) -> bool {
    &&& 1 <= b < tasks.len()
    &&& 0 <= i < tasks.len()
    &&& rank(co, i) < b
    &&& theta_ect_with(tasks, a0, lo, co, b, i) > lct_of(tasks[co[b] as int], a0)
    &&& e.0 == tasks[i].start_times.lower_bound_predicate_spec(theta_ect(tasks, a0, lo, co, b))
    &&& ef_omega_start(
        theta_list(tasks, a0, lo, co, b),
        a0,
        tasks[i].start_times.view_lb(a0),
        tasks[i].duration as int,
        lct_of(tasks[co[b] as int], a0),
        oi,
    )
    &&& ef_omega_prime_start(theta_list(tasks, a0, lo, co, b), a0, theta_ect(tasks, a0, lo, co, b), oi, oj)
    &&& ef_reason(
        e.1@,
        theta_list(tasks, a0, lo, co, b),
        a0,
        tasks[i].start_times.view_lb(a0),
        tasks[i].start_times,
        tasks[i].duration as int,
        theta_ect(tasks, a0, lo, co, b),
        oi,
        oj,
    )
}

/// The rule applies to task `i` for no theta from a position before `b`: it leaves
/// lambda at `b` if the rule applies to it there.
pub open spec fn first_trigger(tasks: Seq<DisjunctiveTask>, a0: &Assignments, lo: Seq<usize>, co: Seq<usize>, b: int, i: int) -> bool {
    forall|b2: int|
        1 <= b2 < b && rank(co, i) < b2 ==> #[trigger] theta_ect_with(tasks, a0, lo, co, b2, i) <= lct_of(
            tasks[co[b2] as int],
            a0,
        )
}

/// Each task still in lambda at position `b` has met the rule for no theta before `b`.
pub open spec fn gray_untriggered(tree: &ThetaLambdaTree, tasks: Seq<DisjunctiveTask>, a0: &Assignments, lo: Seq<usize>, co: Seq<usize>, b: int) -> bool {
    forall|q: int|
        0 <= q < lo.len() && #[trigger] is_gray_leaf(tree.leaves()[q]) ==> first_trigger(tasks, a0, lo, co, b, lo[q] as int)
}

/// The tasks raised at position `b` so far complete with theta no earlier than any task
/// still in lambda.
pub open spec fn picked_first(
    tree: &ThetaLambdaTree,
    tasks: Seq<DisjunctiveTask>,
    a0: &Assignments,
    lo: Seq<usize>,
    co: Seq<usize>,
    raised: Seq<int>,
    at: Seq<int>,
    b: int,
) -> bool {
    forall|k: int, q: int|
        0 <= k < at.len() && #[trigger] at[k] == b && 0 <= q < lo.len() && #[trigger] is_gray_leaf(tree.leaves()[q])
            ==> theta_ect_with(tasks, a0, lo, co, b, raised[k]) >= theta_ect_with(tasks, a0, lo, co, b, lo[q] as int)
}

/// The gray leaf `g` whose run from leaf `k` gives the tree's `ect_bar` holds a task that
/// completes with theta no earlier than any other task of lambda.
pub proof fn lemma_pick_largest(
    tree: &ThetaLambdaTree,
    tasks: Seq<DisjunctiveTask>,
    a0: &Assignments,
    a: &Assignments,
    lo: Seq<usize>,
    co: Seq<usize>,
    b: int,
    g: int,
    k: int,
)
    requires
        ef_orders(tasks, a0, lo, co),
        tree_state(tree, tasks, a0, lo, co, b),
        lbs_state(tree, tasks, a0, a, lo, co, b),
        ef_frame(tasks, a0, a),
        0 <= k <= g < tree.leaves().len(),
        is_gray_leaf(tree.leaves()[g]),
        term(whiten_leaves(tree.subtree(0), g), k) == tree.nodes@[0].ect_bar,
    ensures
        g < lo.len(),
        forall|q: int|
            0 <= q < lo.len() && #[trigger] is_gray_leaf(tree.leaves()[q]) ==> theta_ect_with(tasks, a0, lo, co, b, lo[g] as int)
                >= theta_ect_with(tasks, a0, lo, co, b, lo[q] as int),
{
    lemma_gray_leaf(tree, tasks, a0, a, lo, co, b, g);
    tree.lemma_root();
    lemma_tree_theta_with(tree, tasks, a0, lo, co, b, g);
    crate::tree_spec::lemma_whiten_ok(tree.leaves(), g);
    lemma_term_le_ect(whiten_leaves(tree.leaves(), g), k);
    assert forall|q: int| 0 <= q < lo.len() && #[trigger] is_gray_leaf(tree.leaves()[q]) implies theta_ect_with(
        tasks,
        a0,
        lo,
        co,
        b,
        lo[g] as int,
    ) >= theta_ect_with(tasks, a0, lo, co, b, lo[q] as int) by {
        lemma_gray_leaf(tree, tasks, a0, a, lo, co, b, q);
        lemma_tree_theta_with(tree, tasks, a0, lo, co, b, q);
        crate::tree_spec::lemma_whiten_le_ect_bar(tree.leaves(), q);
    }
}

/// `e` records the raise of task `i` by the edge-finding rule for the theta from position
/// `b`, the first at which the rule applies to `i`, with its explanation, to the lower
/// bound that task `i` has in `a`.
pub open spec fn raise_recorded(
    tasks: Seq<DisjunctiveTask>,
    a0: &Assignments,
    a: &Assignments,
    lo: Seq<usize>,
    co: Seq<usize>,
    e: (Predicate, Vec<Predicate>),
    i: int,
    b: int,
) -> bool {
    &&& first_trigger(tasks, a0, lo, co, b, i)
    &&& tasks[i].start_times.view_lb(a) == theta_ect(tasks, a0, lo, co, b)
    &&& exists|oi: int, oj: int| #[trigger] raise_explained_by(tasks, a0, lo, co, e, b, i, oi, oj)
}

/// The explanations recorded after `a0` are one for each task whose lower bound changed,
/// in the order of `raised`: the `k`-th records the raise of task `raised[k]` by the theta
/// from position `at[k]` of `co`; the positions never decrease, and at one position the
/// tasks come by non-increasing completion time of theta with the task (among equal ones,
/// in the order in which the tree names them).
pub open spec fn raises_listed(
    tasks: Seq<DisjunctiveTask>,
    a0: &Assignments,
    a: &Assignments,
    lo: Seq<usize>,
    co: Seq<usize>,
    raised: Seq<int>,
    at: Seq<int>,
) -> bool {
    &&& a.explanations().len() == a0.explanations().len() + raised.len()
    &&& at.len() == raised.len()
    &&& forall|x: int, y: int| 0 <= x < y < raised.len() ==> #[trigger] raised[x] != #[trigger] raised[y]
    &&& forall|x: int, y: int|
        0 <= x < y < at.len() ==> #[trigger] at[x] <= #[trigger] at[y] && (at[x] == at[y] ==> theta_ect_with(
            tasks,
            a0,
            lo,
            co,
            at[x],
            raised[x],
        ) >= theta_ect_with(tasks, a0, lo, co, at[y], raised[y]))
    &&& forall|k: int|
        0 <= k < raised.len() ==> 0 <= #[trigger] raised[k] < tasks.len() && raise_recorded(
            tasks,
            a0,
            a,
            lo,
            co,
            a.explanations()[a0.explanations().len() + k],
            raised[k],
            at[k],
        )
    &&& forall|i: int|
        0 <= i < tasks.len() ==> (#[trigger] tasks[i].start_times.view_lb(a) != tasks[i].start_times.view_lb(a0)
            <==> raised.contains(i))
}

/// Recording the raise of the task of gray leaf `g` to theta's completion time, with the
/// explanation computed from the tree, lists that task after the ones raised before.
pub proof fn lemma_raise_listed(
    tree: &ThetaLambdaTree,
    tasks: Seq<DisjunctiveTask>,
    a0: &Assignments,
    before: &Assignments,
    after: &Assignments,
    lo: Seq<usize>,
    co: Seq<usize>,
    b: int,
    g: int,
    p: int,
    reason: Vec<Predicate>,
    raised: Seq<int>,
    at: Seq<int>,
)
    requires
        ef_orders(tasks, a0, lo, co),
        tree_state(tree, tasks, a0, lo, co, b),
        lbs_state(tree, tasks, a0, before, lo, co, b),
        ef_frame(tasks, a0, before),
        raises_listed(tasks, a0, before, lo, co, raised, at),
        forall|k: int| 0 <= k < at.len() ==> #[trigger] at[k] <= b,
        gray_untriggered(tree, tasks, a0, lo, co, b),
        picked_first(tree, tasks, a0, lo, co, raised, at, b),
        1 <= b < tasks.len(),
        0 <= g < tree.leaves().len(),
        is_gray_leaf(tree.leaves()[g]),
        p == tree.leaves()[g].sum_p_bar,
        theta_ect_with(tasks, a0, lo, co, b, lo[g] as int) > lct_of(tasks[co[b] as int], a0),
        exists|i: int, j: int|
            {
                &&& ef_omega_start(
                    theta_entries(tree.leaves()),
                    before,
                    tasks[lo[g] as int].start_times.view_lb(before),
                    p,
                    lct_of(tasks[co[b] as int], a0),
                    i,
                )
                &&& ef_omega_prime_start(theta_entries(tree.leaves()), before, ect_of(tree.leaves()), i, j)
                &&& #[trigger] ef_reason(
                    reason@,
                    theta_entries(tree.leaves()),
                    before,
                    tasks[lo[g] as int].start_times.view_lb(before),
                    tasks[lo[g] as int].start_times,
                    p,
                    ect_of(tree.leaves()),
                    i,
                    j,
                )
            },
        tasks[lo[g] as int].start_times.view_lb(before) < ect_of(tree.leaves()),
        lb_raised(tasks, before, after, lo[g] as int, ect_of(tree.leaves())),
        after.explanations() == before.explanations().push(
            (tasks[lo[g] as int].start_times.lower_bound_predicate_spec(ect_of(tree.leaves())), reason),
        ),
    ensures
        raises_listed(tasks, a0, after, lo, co, raised.push(lo[g] as int), at.push(b)),
{
    lemma_orders(tasks, a0, lo, co);
    lemma_gray_leaf(tree, tasks, a0, before, lo, co, b, g);
    lemma_tree_theta(tree, tasks, a0, lo, co, b);
    lemma_white_lbs(tree, tasks, a0, before, lo, co, b);
    lemma_white_lbs_first(tree, tasks, a0, lo, co, b);
    lemma_entries_same_lbs(tree, before, a0);
    let ig = lo[g] as int;
    let var = tasks[ig].start_times;
    let l0 = leaves_for(task_pairs(tasks), a0, lo, tree.n + 1);
    lemma_task_leaf(task_pairs(tasks), a0, ig);
    assert(l0[g] == task_leaf(task_pairs(tasks)[ig], a0));
    assert(var.view_lb(before) == var.view_lb(a0));
    let t = theta_entries(tree.leaves());
    let (i, j) = choose|i: int, j: int|
        {
            &&& ef_omega_start(t, before, var.view_lb(before), p, lct_of(tasks[co[b] as int], a0), i)
            &&& ef_omega_prime_start(t, before, ect_of(tree.leaves()), i, j)
            &&& #[trigger] ef_reason(reason@, t, before, var.view_lb(before), var, p, ect_of(tree.leaves()), i, j)
        };
    lemma_reason_frame(
        t,
        before,
        a0,
        reason@,
        var.view_lb(a0),
        var,
        p,
        lct_of(tasks[co[b] as int], a0),
        ect_of(tree.leaves()),
        ect_of(tree.leaves()),
        i,
        j,
    );
    let n0 = before.explanations().len() as int;
    let m0 = a0.explanations().len() as int;
    let raised2 = raised.push(ig);
    let at2 = at.push(b);
    assert(first_trigger(tasks, a0, lo, co, b, ig));
    assert forall|x: int, y: int| 0 <= x < y < at2.len() implies #[trigger] at2[x] <= #[trigger] at2[y] && (at2[x]
        == at2[y] ==> theta_ect_with(tasks, a0, lo, co, at2[x], raised2[x]) >= theta_ect_with(
        tasks,
        a0,
        lo,
        co,
        at2[y],
        raised2[y],
    )) by {
        assert(at2[x] == at[x]);
        assert(raised2[x] == raised[x]);
        if y < at.len() {
            assert(at2[y] == at[y]);
            assert(raised2[y] == raised[y]);
        } else if at[x] == b {
            assert(raised2[y] == ig);
            assert(is_gray_leaf(tree.leaves()[g]));
        }
    }
    assert(raise_explained_by(tasks, a0, lo, co, after.explanations()[n0], b, ig, i, j));
    // The other tasks keep their bounds.
    assert forall|u: int| 0 <= u < tasks.len() && u != ig implies #[trigger] tasks[u].start_times.view_lb(after)
        == tasks[u].start_times.view_lb(before) by {
        assert(tasks[u].start_times.domain != var.domain) by {
            if u < ig {
                assert(tasks[u].start_times.domain != tasks[ig].start_times.domain);
            } else {
                assert(tasks[ig].start_times.domain != tasks[u].start_times.domain);
            }
        }
        assert(tasks[u].start_times.valid(a0));
        let du = tasks[u].start_times.domain as int;
        assert(after.lb(du) == before.lb(du) && after.ub(du) == before.ub(du));
    }
    assert(!raised.contains(ig));
    assert forall|x: int, y: int| 0 <= x < y < raised2.len() implies #[trigger] raised2[x] != #[trigger] raised2[y] by {
        if y == raised.len() {
            assert(raised.contains(raised[x]));
        } else {
            assert(raised[x] != raised[y]);
        }
    }
    assert forall|k: int| 0 <= k < raised2.len() implies 0 <= #[trigger] raised2[k] < tasks.len() && raise_recorded(
        tasks,
        a0,
        after,
        lo,
        co,
        after.explanations()[m0 + k],
        raised2[k],
        at2[k],
    ) by {
        if k < raised.len() {
            let u = raised[k];
            assert(0 <= u < tasks.len());
            assert(raised.contains(u));
            assert(u != ig);
            assert(after.explanations()[m0 + k] == before.explanations()[m0 + k]);
            let b1 = at[k];
            assert(at2[k] == b1);
            assert(raise_recorded(tasks, a0, before, lo, co, before.explanations()[m0 + k], u, b1));
            let (oi1, oj1) = choose|oi1: int, oj1: int|
                #[trigger] raise_explained_by(tasks, a0, lo, co, before.explanations()[m0 + k], b1, u, oi1, oj1);
            assert(tasks[u].start_times.view_lb(after) == tasks[u].start_times.view_lb(before));
            assert(raise_explained_by(tasks, a0, lo, co, after.explanations()[m0 + k], b1, u, oi1, oj1));
        } else {
            assert(m0 + k == n0);
            assert(raised2[k] == ig);
            assert(at2[k] == b);
        }
    }
    assert forall|u: int| 0 <= u < tasks.len() implies (#[trigger] tasks[u].start_times.view_lb(after)
        != tasks[u].start_times.view_lb(a0) <==> raised2.contains(u)) by {
        if u == ig {
            assert(raised2[raised.len() as int] == ig);
        } else {
            assert(tasks[u].start_times.view_lb(after) == tasks[u].start_times.view_lb(before));
            if raised.contains(u) {
                let x = choose|x: int| 0 <= x < raised.len() && raised[x] == u;
                assert(raised2[x] == u);
            }
            if raised2.contains(u) {
                let x = choose|x: int| 0 <= x < raised2.len() && raised2[x] == u;
                assert(x < raised.len());
                assert(raised[x] == u);
            }
        }
    }
}

/// In a tree in `tree_state`, the leaf holding task `t` is the only one with its domain.
pub proof fn lemma_leaf_of(tree: &ThetaLambdaTree, tasks: Seq<DisjunctiveTask>, a0: &Assignments, lo: Seq<usize>, co: Seq<usize>, b: int, t: int)
    requires
        ef_orders(tasks, a0, lo, co),
        tree_state(tree, tasks, a0, lo, co, b),
        0 <= t < tasks.len(),
    ensures
        0 <= rank(lo, t) < lo.len(),
        lo[rank(lo, t)] == t,
        forall|q: int|
            tree.n <= q < tree.nodes@.len() ==> (has_id(#[trigger] tree.nodes@[q], tasks[t].start_times.domain)
                <==> q == tree.n + rank(lo, t)),
        tree.leaves()[rank(lo, t)].node_id == Some((tasks[t].start_times.domain, tasks[t].start_times)),
{
    lemma_orders(tasks, a0, lo, co);
    let l0 = leaves_for(task_pairs(tasks), a0, lo, tree.n + 1);
    tree.lemma_root();
    assert forall|q: int|
        tree.n <= q < tree.nodes@.len() implies (has_id(#[trigger] tree.nodes@[q], tasks[t].start_times.domain)
            <==> q == tree.n + rank(lo, t)) by {
        let x = q - tree.n;
        assert(tree.leaves()[x] == tree.nodes@[q]);
        if x < lo.len() && rank(co, lo[x] as int) >= b {
            assert(tree.leaves()[x] == l0[x]);
        } else {
            assert(tree.leaves()[x] == grayed(l0[x]) || tree.leaves()[x] == emptied(l0[x]));
        }
        if x < lo.len() {
            let u = lo[x] as int;
            if u != t {
                assert(tasks[u].start_times.domain != tasks[t].start_times.domain) by {
                    if u < t {
                        assert(tasks[u].start_times.domain != tasks[t].start_times.domain);
                    } else {
                        assert(tasks[t].start_times.domain != tasks[u].start_times.domain);
                    }
                }
                if x == rank(lo, t) {
                    assert(lo[x] == t);
                }
            }
        }
    }
    let x = rank(lo, t);
    if rank(co, lo[x] as int) >= b {
        assert(tree.leaves()[x] == l0[x]);
    } else {
        assert(tree.leaves()[x] == grayed(l0[x]) || tree.leaves()[x] == emptied(l0[x]));
    }
}

/// When theta with at most one task of lambda completes by the latest completion of
/// theta's first task, the edge-finding rule holds for theta.
pub proof fn lemma_edge_found_at_exit(tree: &ThetaLambdaTree, tasks: Seq<DisjunctiveTask>, a0: &Assignments, a: &Assignments, lo: Seq<usize>, co: Seq<usize>, b: int)
    requires
        ef_orders(tasks, a0, lo, co),
        tree_state(tree, tasks, a0, lo, co, b),
        lbs_state(tree, tasks, a0, a, lo, co, b),
        0 <= b < tasks.len(),
        crate::tree_spec::ect_bar_of(tree.leaves()) <= lct_of(tasks[co[b] as int], a0),
        gray_untriggered(tree, tasks, a0, lo, co, b),
    ensures
        edge_found(tasks, a0, a, lo, co, b),
        gray_untriggered(tree, tasks, a0, lo, co, b + 1),
{
    lemma_orders(tasks, a0, lo, co);
    tree.lemma_root();
    let l0 = leaves_for(task_pairs(tasks), a0, lo, tree.n + 1);
    assert forall|i: int|
        0 <= i < tasks.len() && rank(co, i) < b && theta_ect_with(tasks, a0, lo, co, b, i) > lct_of(tasks[co[b] as int], a0)
        implies #[trigger] tasks[i].start_times.view_lb(a) >= theta_ect(tasks, a0, lo, co, b) by {
        let q = rank(lo, i);
        assert(lo[q] == i);
        assert(tree.leaves()[q] == grayed(l0[q]) || tree.leaves()[q] == emptied(l0[q]));
        if tree.leaves()[q] == grayed(l0[q]) {
            lemma_tree_theta_with(tree, tasks, a0, lo, co, b, q);
            crate::tree_spec::lemma_whiten_le_ect_bar(tree.leaves(), q);
            assert(false);
        } else {
            assert(is_empty_leaf(tree.leaves()[q]));
        }
    }
    assert forall|q: int| 0 <= q < lo.len() && #[trigger] is_gray_leaf(tree.leaves()[q]) implies first_trigger(
        tasks,
        a0,
        lo,
        co,
        b + 1,
        lo[q] as int,
    ) by {
        assert(first_trigger(tasks, a0, lo, co, b, lo[q] as int));
        let i = lo[q] as int;
        if tree.leaves()[q] != grayed(l0[q]) {
            assert(tree.leaves()[q] == grayed(l0[q]) || tree.leaves()[q] == emptied(l0[q])) by {
                if q < lo.len() && rank(co, lo[q] as int) >= b {
                    lemma_task_leaf(task_pairs(tasks), a0, i);
                }
            }
        }
        if rank(co, i) >= b {
            assert(tree.leaves()[q] == l0[q]);
            lemma_task_leaf(task_pairs(tasks), a0, i);
        }
        assert(tree.leaves()[q] == grayed(l0[q]));
        lemma_tree_theta_with(tree, tasks, a0, lo, co, b, q);
        crate::tree_spec::lemma_whiten_le_ect_bar(tree.leaves(), q);
    }
}

/// The responsible gray leaf `g` holds a task of lambda, still at its first lower bound.
pub proof fn lemma_gray_leaf(tree: &ThetaLambdaTree, tasks: Seq<DisjunctiveTask>, a0: &Assignments, a: &Assignments, lo: Seq<usize>, co: Seq<usize>, b: int, g: int)
    requires
        ef_orders(tasks, a0, lo, co),
        tree_state(tree, tasks, a0, lo, co, b),
        lbs_state(tree, tasks, a0, a, lo, co, b),
        ef_frame(tasks, a0, a),
        0 <= g < tree.leaves().len(),
        is_gray_leaf(tree.leaves()[g]),
    ensures
        g < lo.len(),
        rank(co, lo[g] as int) < b,
        tree.leaves()[g] == grayed(leaves_for(task_pairs(tasks), a0, lo, tree.n + 1)[g]),
        tree.leaves()[g].node_id == Some((tasks[lo[g] as int].start_times.domain, tasks[lo[g] as int].start_times)),
        tasks[lo[g] as int].start_times.view_lb(a) == est(tree.leaves()[g]),
        tasks[lo[g] as int].start_times.valid(a),
        tree.leaves()[g].sum_p_bar == tasks[lo[g] as int].duration,
        0 <= tree.leaves()[g].sum_p_bar <= TREE_LIMIT,
        subtree_is_leaves(tree),
{
    lemma_orders(tasks, a0, lo, co);
    tree.lemma_root();
    let l0 = leaves_for(task_pairs(tasks), a0, lo, tree.n + 1);
    if g < lo.len() && rank(co, lo[g] as int) >= b {
        assert(tree.leaves()[g] == l0[g]);
        lemma_task_leaf(task_pairs(tasks), a0, lo[g] as int);
        assert(false);
    }
    assert(tree.leaves()[g] == grayed(l0[g]) || tree.leaves()[g] == emptied(l0[g]));
    if g >= lo.len() {
        assert(l0[g] == unused_leaf());
        assert(false);
    }
    assert(tree.leaves()[g] == grayed(l0[g]));
    lemma_task_leaf(task_pairs(tasks), a0, lo[g] as int);
    assert(tasks[lo[g] as int].start_times.valid(a0));
}

pub open spec fn subtree_is_leaves(tree: &ThetaLambdaTree) -> bool {
    tree.subtree(0) == tree.leaves()
}

/// Task `ig` had its lower bound raised to `v`, or it was already at least `v`.
pub open spec fn lb_raised(tasks: Seq<DisjunctiveTask>, before: &Assignments, after: &Assignments, ig: int, v: int) -> bool {
    let var = tasks[ig].start_times;
    ||| *after == *before && v <= var.view_lb(before)
    ||| {
        &&& after.wf()
        &&& after.num_domains() == before.num_domains()
        &&& var.view_lb(before) < v
        &&& var.view_lb(after) == v
        &&& var.view_ub(after) == var.view_ub(before)
        &&& forall|d: int|
            #![trigger after.lb(d)]
            #![trigger after.ub(d)]
            0 <= d < before.num_domains() && d != var.domain ==> after.lb(d) == before.lb(d) && after.ub(d)
                == before.ub(d)
        &&& after.explanations().len() == before.explanations().len() + 1
        &&& after.explanations().subrange(0, before.explanations().len() as int) == before.explanations()
    }
}

/// A successful raise of the lower bound of task `ig` from below `v` to `v`.
pub proof fn lemma_lb_raised(tasks: Seq<DisjunctiveTask>, before: &Assignments, after: &Assignments, ig: int, v: int)
    requires
        0 <= ig < tasks.len(),
        after.wf(),
        after.num_domains() == before.num_domains(),
        tasks[ig].start_times.view_lb(before) < v,
        tasks[ig].start_times.view_lb(after) == v,
        tasks[ig].start_times.view_ub(after) == tasks[ig].start_times.view_ub(before),
        forall|d: int|
            0 <= d < before.num_domains() && d != tasks[ig].start_times.domain ==> #[trigger] after.lb(d) == before.lb(d)
                && after.ub(d) == before.ub(d),
        after.explanations().len() == before.explanations().len() + 1,
        after.explanations().subrange(0, before.explanations().len() as int) == before.explanations(),
    ensures
        lb_raised(tasks, before, after, ig, v),
{
}

/// Raising a task of lambda to theta's completion time and removing it keeps the
/// invariants of edge finding.
pub proof fn lemma_after_remove(
    t_old: ThetaLambdaTree,
    t_new: &ThetaLambdaTree,
    tasks: Seq<DisjunctiveTask>,
    a0: &Assignments,
    a_old: &Assignments,
    a_new: &Assignments,
    lo: Seq<usize>,
    co: Seq<usize>,
    b: int,
    g: int,
)
    requires
        ef_orders(tasks, a0, lo, co),
        1 <= b < tasks.len(),
        tree_state(&t_old, tasks, a0, lo, co, b),
        lbs_state(&t_old, tasks, a0, a_old, lo, co, b),
        ef_frame(tasks, a0, a_old),
        forall|b2: int| 1 <= b2 < b ==> #[trigger] edge_found(tasks, a0, a_old, lo, co, b2),
        justified(tasks, a0, a_old, lo, co, b),
        0 <= g < lo.len(),
        rank(co, lo[g] as int) < b,
        t_old.leaves()[g] == grayed(leaves_for(task_pairs(tasks), a0, lo, t_old.n + 1)[g]),
        theta_ect_with(tasks, a0, lo, co, b, lo[g] as int) > lct_of(tasks[co[b] as int], a0),
        lb_raised(tasks, a_old, a_new, lo[g] as int, theta_ect(tasks, a0, lo, co, b)),
        t_new.wf(),
        t_new.n == t_old.n,
        t_new.leaves() == t_old.leaves().update(g, emptied(t_old.leaves()[g])),
    ensures
        tree_state(t_new, tasks, a0, lo, co, b),
        lbs_state(t_new, tasks, a0, a_new, lo, co, b),
        ef_frame(tasks, a0, a_new),
        forall|b2: int| 1 <= b2 < b ==> #[trigger] edge_found(tasks, a0, a_new, lo, co, b2),
        justified(tasks, a0, a_new, lo, co, b),
        crate::tree_spec::count_nonempty(t_new.leaves()) < crate::tree_spec::count_nonempty(t_old.leaves()),
{
    lemma_orders(tasks, a0, lo, co);
    t_old.lemma_root();
    let l0 = leaves_for(task_pairs(tasks), a0, lo, t_old.n + 1);
    let ig = lo[g] as int;
    let var = tasks[ig].start_times;
    lemma_task_leaf(task_pairs(tasks), a0, ig);
    crate::tree_spec::lemma_count_update(t_old.leaves(), g, emptied(t_old.leaves()[g]));
    // views of the other tasks keep their bounds
    assert forall|u: int| 0 <= u < tasks.len() && u != ig implies
        #[trigger] tasks[u].start_times.view_lb(a_new) == tasks[u].start_times.view_lb(a_old)
            && tasks[u].start_times.view_ub(a_new) == tasks[u].start_times.view_ub(a_old) by {
        assert(tasks[u].start_times.domain != var.domain) by {
            if u < ig {
                assert(tasks[u].start_times.domain != tasks[ig].start_times.domain);
            } else {
                assert(tasks[ig].start_times.domain != tasks[u].start_times.domain);
            }
        }
        assert(tasks[u].start_times.valid(a0));
        if *a_new != *a_old {
            let du = tasks[u].start_times.domain as int;
            assert(a_new.lb(du) == a_old.lb(du));
        }
    }
    assert forall|u: int| 0 <= u < tasks.len() implies
        #[trigger] tasks[u].start_times.view_lb(a_new) >= tasks[u].start_times.view_lb(a_old) by {
        if u != ig {
            assert(tasks[u].start_times.view_lb(a_new) == tasks[u].start_times.view_lb(a_old));
        }
    }
    // tree state
    assert forall|q: int| 0 <= q <= t_new.n implies if q < lo.len() && rank(co, lo[q] as int) >= b {
        #[trigger] t_new.leaves()[q] == l0[q]
    } else {
        t_new.leaves()[q] == grayed(l0[q]) || t_new.leaves()[q] == emptied(l0[q])
    } by {
        assert(t_old.leaves()[q] == t_old.leaves()[q]);
        if q == g {
            assert(emptied(grayed(l0[g])) == emptied(l0[g]));
        } else {
            assert(t_new.leaves()[q] == t_old.leaves()[q]);
        }
    }
    // lower bounds of the tasks in the tree
    assert forall|q: int| 0 <= q < lo.len() implies {
        &&& !is_empty_leaf(#[trigger] t_new.leaves()[q]) ==> tasks[lo[q] as int].start_times.view_lb(a_new)
            == tasks[lo[q] as int].start_times.view_lb(a0)
        &&& is_empty_leaf(t_new.leaves()[q]) ==> tasks[lo[q] as int].start_times.view_lb(a_new) >= theta_ect(tasks, a0, lo, co, b)
    } by {
        assert(t_old.leaves()[q] == t_old.leaves()[q]);
        if q != g {
            assert(t_new.leaves()[q] == t_old.leaves()[q]);
            assert(lo[q] != lo[g]) by {
                if q < g {
                    assert(lo[q] != lo[g]);
                } else {
                    assert(lo[g] != lo[q]);
                }
            }
        }
    }
    // frame
    assert forall|i: int|
        0 <= i < tasks.len() implies #[trigger] tasks[i].start_times.view_ub(a_new) == tasks[i].start_times.view_ub(a0)
            && tasks[i].start_times.view_lb(a_new) >= tasks[i].start_times.view_lb(a0) by {
        assert(tasks[i].start_times.view_ub(a_old) == tasks[i].start_times.view_ub(a0));
        assert(tasks[i].start_times.view_lb(a_new) >= tasks[i].start_times.view_lb(a_old));
    }
    assert forall|d: int|
        0 <= d < a0.num_domains() && task_free_domain(tasks, d)
            implies #[trigger] a_new.lb(d) == a0.lb(d) && a_new.ub(d) == a0.ub(d) by {
        assert(tasks[ig].start_times.domain != d);
        assert(a_old.lb(d) == a0.lb(d) && a_old.ub(d) == a0.ub(d));
    }
    if *a_new != *a_old {
        let n0 = a0.explanations().len() as int;
        let n1 = a_old.explanations().len() as int;
        assert(a_new.explanations().subrange(0, n0) =~= a_new.explanations().subrange(0, n1).subrange(0, n0));
    }
    assert(ef_frame(tasks, a0, a_new));
    // earlier edge-finding conclusions stay true
    assert forall|b2: int| 1 <= b2 < b implies #[trigger] edge_found(tasks, a0, a_new, lo, co, b2) by {
        assert(edge_found(tasks, a0, a_old, lo, co, b2));
        assert forall|i: int|
            0 <= i < tasks.len() && rank(co, i) < b2 && theta_ect_with(tasks, a0, lo, co, b2, i) > lct_of(tasks[co[b2] as int], a0)
            implies #[trigger] tasks[i].start_times.view_lb(a_new) >= theta_ect(tasks, a0, lo, co, b2) by {
            assert(tasks[i].start_times.view_lb(a_new) >= tasks[i].start_times.view_lb(a_old));
        }
    }
    // every lower bound still comes from the rule
    assert forall|i: int| 0 <= i < tasks.len() implies {
        ||| #[trigger] tasks[i].start_times.view_lb(a_new) == tasks[i].start_times.view_lb(a0)
        ||| exists|b2: int|
            1 <= b2 <= b && rank(co, i) < b2 && theta_ect_with(tasks, a0, lo, co, b2, i) > lct_of(tasks[co[b2] as int], a0)
                && tasks[i].start_times.view_lb(a_new) == #[trigger] theta_ect(tasks, a0, lo, co, b2)
    } by {
        if i == ig && *a_new != *a_old {
            assert(tasks[i].start_times.view_lb(a_new) == theta_ect(tasks, a0, lo, co, b));
        } else if i != ig {
            assert(tasks[i].start_times.view_lb(a_new) == tasks[i].start_times.view_lb(a_old));
            assert(justified(tasks, a0, a_old, lo, co, b));
            assert(tasks[i].start_times.view_lb(a_old) == tasks[i].start_times.view_lb(a_old));
        } else {
            assert(justified(tasks, a0, a_old, lo, co, b));
            assert(tasks[i].start_times.view_lb(a_old) == tasks[i].start_times.view_lb(a_old));
        }
    }
}

/// One pass of edge finding over `tasks_init`: tasks are taken by decreasing latest
/// completion time; each leaves theta for lambda, theta is tested for overload, and every
/// task of lambda that cannot complete with theta before the next latest completion is
/// made to start after theta completes.
#[verifier::rlimit(100)]
#[verifier::spinoff_prover]
pub fn edge_finding(tasks_init: &Vec<DisjunctiveTask>, context: &mut Assignments) -> (r: Result<(), Inconsistency>)
    requires
        ef_tasks_ok(tasks_init@, old(context)),
    ensures
        ef_pass(tasks_init@, old(context), final(context), r),
{
    let ghost a0 = *context;
    let ghost tasks = tasks_init@;
    assert(a0 == *old(context));
    let len = tasks_init.len();
    proof {
        a0.lemma_bounds();
        assert(task_pairs(tasks).len() == tasks.len());
        assert forall|k: int| 0 <= k < task_pairs(tasks).len() implies (#[trigger] task_pairs(tasks)[k]).0.valid(&a0) && 0 <= task_pairs(tasks)[k].1 by {
            assert(tasks[k].start_times.valid(&a0));
        }
        assert(tasks_ok(task_pairs(tasks), &a0));
    }
    let mut keys: Vec<i32> = Vec::new();
    let mut i: usize = 0;
    while i < len
        invariant
            i <= len,
            len == tasks.len(),
            tasks == tasks_init@,
            *context == a0,
            ef_tasks_ok(tasks, &a0),
            tasks_ok(task_pairs(tasks), &a0),
            keys@ == lct_keys(tasks, &a0).take(i as int),
        decreases len - i,
    {
        proof {
            lemma_task_leaf(task_pairs(tasks), &a0, i as int);
            assert(tasks[i as int].start_times.valid(&a0));
            a0.lemma_bounds();
        }
        let t = tasks_init[i];
        keys.push(-(context.upper_bound(t.start_times) + t.duration));
        proof {
            assert(keys@ =~= lct_keys(tasks, &a0).take(i + 1));
        }
        i = i + 1;
    }
    assert(keys@ =~= lct_keys(tasks, &a0));
    let order = stable_order(&keys);
    let mut tree = ThetaLambdaTree::from_disjunctive(tasks_init, context);
    let ghost mut raised: Seq<int> = Seq::empty();
    let ghost mut at: Seq<int> = Seq::empty();
    let ghost lo = choose|o: Seq<usize>|
        {
            &&& is_stable_order(o, lb_keys(task_pairs(tasks), &a0))
            &&& tree.leaves() == leaves_for(task_pairs(tasks), &a0, o, tree.n + 1)
        };
    let ghost co = order@;
    proof {
        assert(ef_orders(tasks, &a0, lo, co));
        lemma_orders(tasks, &a0, lo, co);
        let l0 = leaves_for(task_pairs(tasks), &a0, lo, tree.n + 1);
        assert forall|q: int| 0 <= q <= tree.n implies if q < lo.len() && rank(co, lo[q] as int) >= 0 {
            #[trigger] tree.leaves()[q] == l0[q]
        } else {
            tree.leaves()[q] == grayed(l0[q]) || tree.leaves()[q] == emptied(l0[q])
        } by {
            if q >= lo.len() {
                assert(l0[q] == unused_leaf());
                assert(grayed(l0[q]) == l0[q]);
            }
        }
        assert(tree_state(&tree, tasks, &a0, lo, co, 0));
        assert(lbs_state(&tree, tasks, &a0, context, lo, co, 0));
        assert(context.explanations().subrange(0, a0.explanations().len() as int) =~= a0.explanations());
        assert(ef_frame(tasks, &a0, context));
        assert(raises_listed(tasks, &a0, context, lo, co, raised, at));
    }
    let mut j = order[0];
    let mut pos: usize = 1;
    while pos < len
        invariant
            1 <= pos <= len,
            len == tasks.len(),
            tasks == tasks_init@,
            a0 == *old(context),
            ef_orders(tasks, &a0, lo, co),
            co == order@,
            j == co[pos - 1],
            tree_state(&tree, tasks, &a0, lo, co, pos - 1),
            lbs_state(&tree, tasks, &a0, context, lo, co, pos - 1),
            ef_frame(tasks, &a0, context),
            raises_listed(tasks, &a0, context, lo, co, raised, at),
            forall|k: int| 0 <= k < at.len() ==> #[trigger] at[k] <= pos - 1,
            gray_untriggered(&tree, tasks, &a0, lo, co, pos - 1),
            no_overload_before(tasks, &a0, lo, co, pos - 1),
            forall|b: int| 1 <= b < pos - 1 ==> #[trigger] edge_found(tasks, &a0, context, lo, co, b),
            pos >= 2 ==> edge_found(tasks, &a0, context, lo, co, pos - 1) || theta_ect(tasks, &a0, lo, co, pos - 1)
                > lct_of(tasks[co[pos - 1] as int], &a0),
            pos >= 2 ==> gray_untriggered(&tree, tasks, &a0, lo, co, pos as int) || theta_ect(tasks, &a0, lo, co, pos - 1)
                > lct_of(tasks[co[pos - 1] as int], &a0),
            justified(tasks, &a0, context, lo, co, pos - 1),
        decreases len - pos,
    {
        let ghost b = pos - 1;
        proof {
            lemma_orders(tasks, &a0, lo, co);
            lemma_task_leaf(task_pairs(tasks), &a0, j as int);
            assert(tasks[j as int].start_times.valid(&a0));
            a0.lemma_bounds();
            context.lemma_bounds();
            lemma_tree_theta(&tree, tasks, &a0, lo, co, b);
            tree.lemma_root();
        }
        let tj = tasks_init[j];
        let lct_j = context.upper_bound(tj.start_times) + tj.duration;
        assert(lct_j == lct_of(tasks[co[b] as int], &a0));
        if tree.ect() > lct_j {
            proof {
                lemma_white_lbs(&tree, tasks, &a0, context, lo, co, b);
                if !has_white(tree.leaves()) {
                    lemma_no_white(tree.leaves());
                }
                let q = choose|q: int| 0 <= q < tree.leaves().len() && #[trigger] is_white(tree.leaves()[q]);
                lemma_white_entry(tree.leaves(), q);
            }
            proof {
                lemma_no_overflow_before(tasks, &a0, context, lo, co, b);
            }
            let ghost ctx = *context;
            let r = compute_overload_explanation(tree, lct_j, context);
            proof {
                assert(*context == ctx);
                assert(ef_frame(tasks, &a0, context));
                assert(overload_found(tasks, &a0, context, lo, co, match r { Err(Inconsistency::Conflict(reason)) => reason@, _ => Seq::empty() }));
            }
            return r;
        }
        proof {
            assert(no_overload_before(tasks, &a0, lo, co, pos as int));
        }
        proof {
            lemma_leaf_of(&tree, tasks, &a0, lo, co, b, j as int);
        }
        let ghost before_gray = tree.leaves();
        tree.convert_to_gray_id(tj.start_times.domain_id());
        proof {
            let qj = rank(lo, j as int);
            assert(tree.leaves() == before_gray.update(qj, grayed(before_gray[qj])));
            let l0 = leaves_for(task_pairs(tasks), &a0, lo, tree.n + 1);
            assert forall|q: int| 0 <= q <= tree.n implies if q < lo.len() && rank(co, lo[q] as int) >= pos {
                #[trigger] tree.leaves()[q] == l0[q]
            } else {
                tree.leaves()[q] == grayed(l0[q]) || tree.leaves()[q] == emptied(l0[q])
            } by {
                if q == qj {
                    assert(rank(co, lo[q] as int) == b);
                    assert(before_gray[q] == l0[q]);
                } else {
                    assert(tree.leaves()[q] == before_gray[q]);
                    if q < lo.len() && rank(co, lo[q] as int) >= b {
                        if rank(co, lo[q] as int) == b {
                            assert(co[b] == lo[q]);
                            assert(lo[qj] == j);
                            if q < qj {
                                assert(lo[q] != lo[qj]);
                            } else {
                                assert(lo[qj] != lo[q]);
                            }
                        }
                    } else {
                        assert(before_gray[q] == grayed(l0[q]) || before_gray[q] == emptied(l0[q]));
                        if before_gray[q] == grayed(l0[q]) {
                            assert(grayed(grayed(l0[q])) == grayed(l0[q]));
                        }
                    }
                }
            }
            assert(tree_state(&tree, tasks, &a0, lo, co, pos as int));
            lemma_theta_monotone(tasks, &a0, lo, co, b, pos as int);
            assert forall|q: int| 0 <= q < lo.len() implies {
                &&& !is_empty_leaf(#[trigger] tree.leaves()[q]) ==> tasks[lo[q] as int].start_times.view_lb(context)
                    == tasks[lo[q] as int].start_times.view_lb(&a0)
                &&& is_empty_leaf(tree.leaves()[q]) ==> tasks[lo[q] as int].start_times.view_lb(context) >= theta_ect(tasks, &a0, lo, co, pos as int)
            } by {
                assert(is_empty_leaf(tree.leaves()[q]) == is_empty_leaf(before_gray[q]));
                assert(lbs_state(&tree, tasks, &a0, context, lo, co, b));
            }
            assert(lbs_state(&tree, tasks, &a0, context, lo, co, pos as int));
            assert(gray_untriggered(&tree, tasks, &a0, lo, co, pos as int)) by {
                assert forall|q: int| 0 <= q < lo.len() && #[trigger] is_gray_leaf(tree.leaves()[q]) implies first_trigger(
                    tasks,
                    &a0,
                    lo,
                    co,
                    pos as int,
                    lo[q] as int,
                ) by {
                    if q == qj {
                        assert(rank(co, lo[q] as int) == b);
                    } else {
                        assert(tree.leaves()[q] == before_gray[q]);
                    }
                }
            }
        }
        j = order[pos];
        pos = pos + 1;
        proof {
            lemma_task_leaf(task_pairs(tasks), &a0, j as int);
            assert(tasks[j as int].start_times.valid(&a0));
        }
        let tj = tasks_init[j];
        let lct_j = context.upper_bound(tj.start_times) + tj.duration;
        assert(lct_j == lct_of(tasks[co[pos - 1] as int], &a0));
        assert(picked_first(&tree, tasks, &a0, lo, co, raised, at, pos - 1));
        loop
            invariant_except_break
                2 <= pos <= len,
                len == tasks.len(),
                tasks == tasks_init@,
                a0 == *old(context),
                ef_orders(tasks, &a0, lo, co),
                co == order@,
                j == co[pos - 1],
                lct_j == lct_of(tasks[co[pos - 1] as int], &a0),
                -2 * TREE_LIMIT <= lct_j <= 2 * TREE_LIMIT,
                tree_state(&tree, tasks, &a0, lo, co, pos - 1),
                lbs_state(&tree, tasks, &a0, context, lo, co, pos - 1),
                ef_frame(tasks, &a0, context),
                raises_listed(tasks, &a0, context, lo, co, raised, at),
                forall|k: int| 0 <= k < at.len() ==> #[trigger] at[k] <= pos - 1,
                gray_untriggered(&tree, tasks, &a0, lo, co, pos - 1),
                picked_first(&tree, tasks, &a0, lo, co, raised, at, pos - 1),
                no_overload_before(tasks, &a0, lo, co, pos - 1),
                forall|b: int| 1 <= b < pos - 1 ==> #[trigger] edge_found(tasks, &a0, context, lo, co, b),
                justified(tasks, &a0, context, lo, co, pos - 1),
            ensures
                2 <= pos <= len,
                j == co[pos - 1],
                tree_state(&tree, tasks, &a0, lo, co, pos - 1),
                lbs_state(&tree, tasks, &a0, context, lo, co, pos - 1),
                ef_frame(tasks, &a0, context),
                raises_listed(tasks, &a0, context, lo, co, raised, at),
                forall|k: int| 0 <= k < at.len() ==> #[trigger] at[k] <= pos - 1,
                gray_untriggered(&tree, tasks, &a0, lo, co, pos - 1),
                no_overload_before(tasks, &a0, lo, co, pos - 1),
                forall|b: int| 1 <= b < pos - 1 ==> #[trigger] edge_found(tasks, &a0, context, lo, co, b),
                edge_found(tasks, &a0, context, lo, co, pos - 1) || theta_ect(tasks, &a0, lo, co, pos - 1)
                    > lct_of(tasks[co[pos - 1] as int], &a0),
                gray_untriggered(&tree, tasks, &a0, lo, co, pos as int) || theta_ect(tasks, &a0, lo, co, pos - 1)
                    > lct_of(tasks[co[pos - 1] as int], &a0),
                justified(tasks, &a0, context, lo, co, pos - 1),
            decreases crate::tree_spec::count_nonempty(tree.leaves()),
        {
            let ghost b = pos - 1;
            proof {
                tree.lemma_root();
                lemma_orders(tasks, &a0, lo, co);
            }
            if tree.ect_bar() <= lct_j {
                proof {
                    lemma_edge_found_at_exit(&tree, tasks, &a0, context, lo, co, b);
                }
                break;
            }
            match tree.responsible_ect_bar(0) {
                Some((id, var, p)) => {
                    let ghost (g, k) = choose|g: int, k: int|
                        {
                            &&& 0 <= k <= g < tree.subtree(0).len()
                            &&& #[trigger] is_gray_leaf(tree.subtree(0)[g])
                            &&& tree.subtree(0)[g].node_id == Some((id, var))
                            &&& p == tree.subtree(0)[g].sum_p_bar
                            &&& (k == g || is_white(tree.subtree(0)[k]))
                            &&& #[trigger] term(whiten_leaves(tree.subtree(0), g), k) == tree.nodes@[0].ect_bar
                        };
                    let ghost ig = lo[g] as int;
                    proof {
                        lemma_gray_leaf(&tree, tasks, &a0, context, lo, co, b, g);
                    }
                    let new_lb = tree.ect();
                    proof {
                        lemma_tree_theta(&tree, tasks, &a0, lo, co, b);
                        lemma_tree_theta_with(&tree, tasks, &a0, lo, co, b, g);
                        crate::tree_spec::lemma_whiten_ok(tree.leaves(), g);
                        lemma_term_le_ect(whiten_leaves(tree.leaves(), g), k);
                        lemma_leaf_of(&tree, tasks, &a0, lo, co, b, ig);
                        assert(theta_ect_with(tasks, &a0, lo, co, b, ig) > lct_of(tasks[co[b] as int], &a0));
                    }
                    let ghost before = *context;
                    let ghost t_old = tree;
                    let ghost raised_old = raised;
                    let ghost at_old = at;
                    proof {
                        lemma_pick_largest(&tree, tasks, &a0, context, lo, co, b, g, k);
                    }
                    if new_lb > context.lower_bound(var) {
                        proof {
                            lemma_white_lbs(&tree, tasks, &a0, context, lo, co, b);
                            lemma_omega_exists(&tree, context, g, k, lct_j as int);
                            tree.lemma_node(0);
                            context.lemma_bounds();
                            assert(var.valid(context));
                            assert(var.view_lb(context) >= -TREE_LIMIT);
                            assert(new_lb <= 2 * TREE_LIMIT);
                        }
                        let reason = compute_edge_finding_explanations(&tree, var, p, new_lb, context, lct_j);
                        let ghost recorded = reason;
                        let res = context.set_lower_bound(var, new_lb, reason);
                        match res {
                            Err(e) => {
                                proof {
                                    assert(*context == before);
                                    assert(ef_frame(tasks, &a0, context));
                                    assert(e is EmptyDomain);
                                    assert(var == tasks[ig].start_times);
                                    assert(raise_overflows(tasks, &a0, lo, co, b, ig));
                                    lemma_no_overflow_before(tasks, &a0, context, lo, co, b);
                                }
                                return Err(e);
                            },
                            Ok(()) => {},
                        }
                        proof {
                            assert(res is Ok);
                            assert(var == tasks[ig].start_times);
                            assert(var.view_lb(&before) < new_lb);
                            assert(new_lb <= var.view_ub(&before));
                            assert(var.view_lb(context) == new_lb);
                            assert(new_lb == theta_ect(tasks, &a0, lo, co, b));
                            assert(context.explanations() == before.explanations().push(
                                (var.lower_bound_predicate_spec(new_lb as int), reason),
                            ));
                            assert(context.explanations().subrange(0, before.explanations().len() as int) =~= before.explanations());
                            assert(forall|d: int|
                                0 <= d < before.num_domains() && d != var.domain ==> #[trigger] context.lb(d) == before.lb(d)
                                    && context.ub(d) == before.ub(d));
                            assert(context.wf());
                            assert(context.num_domains() == before.num_domains());
                            assert(var.view_ub(context) == var.view_ub(&before));
                            assert(context.explanations().len() == before.explanations().len() + 1);
                            lemma_lb_raised(tasks, &before, context, ig, theta_ect(tasks, &a0, lo, co, b));
                            lemma_raise_listed(&tree, tasks, &a0, &before, context, lo, co, b, g, p as int, recorded, raised, at);
                            raised = raised.push(ig);
                            at = at.push(b);
                        }
                    } else {
                        proof {
                            assert(lb_raised(tasks, &before, context, ig, theta_ect(tasks, &a0, lo, co, b)));
                        }
                    }
                    tree.remove_from_lambda_id(id);
                    proof {
                        let x = choose|x: int|
                            {
                                &&& t_old.n <= x < t_old.nodes@.len()
                                &&& has_id(#[trigger] t_old.nodes@[x], id)
                                &&& forall|y: int| t_old.n <= y < x ==> !has_id(#[trigger] t_old.nodes@[y], id)
                                &&& tree.leaves() == t_old.leaves().update(x - t_old.n, emptied(t_old.nodes@[x]))
                            };
                        assert(x == t_old.n + g);
                        assert(t_old.nodes@[x] == t_old.leaves()[g]);
                        lemma_after_remove(t_old, &tree, tasks, &a0, &before, context, lo, co, b, g);
                        assert forall|q: int| 0 <= q < lo.len() && #[trigger] is_gray_leaf(tree.leaves()[q]) implies first_trigger(
                            tasks,
                            &a0,
                            lo,
                            co,
                            b,
                            lo[q] as int,
                        ) by {
                            assert(q != g);
                            assert(tree.leaves()[q] == t_old.leaves()[q]);
                        }
                        assert forall|k2: int, q: int|
                            0 <= k2 < at.len() && #[trigger] at[k2] == b && 0 <= q < lo.len() && #[trigger] is_gray_leaf(
                                tree.leaves()[q],
                            ) implies theta_ect_with(tasks, &a0, lo, co, b, raised[k2]) >= theta_ect_with(
                            tasks,
                            &a0,
                            lo,
                            co,
                            b,
                            lo[q] as int,
                        ) by {
                            assert(q != g);
                            assert(tree.leaves()[q] == t_old.leaves()[q]);
                            assert(is_gray_leaf(t_old.leaves()[q]));
                            if k2 < at_old.len() {
                                assert(at[k2] == at_old[k2]);
                                assert(raised[k2] == raised_old[k2]);
                            } else {
                                assert(raised[k2] == ig);
                            }
                        }
                    }
                },
                None => {
                    proof {
                        lemma_tree_theta(&tree, tasks, &a0, lo, co, b);
                    }
                    break;
                },
            }
        }
    }
    proof {
        lemma_theta_last(tasks, &a0, lo, co);
        assert(edge_finding_done(tasks, &a0, context, lo, co));
    }
    Ok(())
}

} // verus!
