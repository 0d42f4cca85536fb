//! Theta-lambda tree: a complete binary tree over tasks sorted by earliest start time,
//! whose root holds the earliest completion time of the tasks in theta, alone and with
//! one task of lambda added.
use vstd::prelude::*;
use crate::engine::{Assignments, DomainId, IntVar};
use crate::disjunctive::DisjunctiveTask;
use crate::sorting::{
    is_stable_order, key_before, lemma_stable_order_distinct, lemma_sum_selected_le, stable_order,
    sum_int, sum_selected,
};
use crate::tree_spec::{
    all_leaf_ok, est, is_empty_leaf, leaf_ok, lemma_all_ok_concat, lemma_concat, lemma_singleton,
    lemma_summary_bounds, max2, summarises, total_p, TREE_LIMIT, ect_of, ect_bar_of, sum_p_of,
    sum_p_bar_of, is_white, is_gray_leaf, whiten, term, has_white, lemma_whitened_ok,
    lemma_whiten_ok, lemma_whiten_concat, lemma_term_concat, lemma_no_white, lemma_ect_attained,
    theta_entries, node_entries, lemma_entries_take, white_pairs, lemma_theta_entries_concat,
    lemma_entries_single, lemma_ect_with_white, lemma_leaf_ok_subrange, lemma_no_white_pairs,
    lemma_sum_p_split, extra, gray_extra, lemma_extra_le, held_count, lemma_node_entries_listing, white_count, lemma_white_listing,
};

verus! {

/// A node of a theta-lambda tree. A leaf holds one task; an inner node summarises the
/// leaves below it.
#[derive(Clone, Copy, Debug)]
pub struct Node {
    pub ect: i32,
    pub sum_p: i32,
    pub ect_bar: i32,
    pub sum_p_bar: i32,
    pub node_id: Option<(DomainId, IntVar)>,
}

pub open spec fn is_pow2(x: int) -> bool
    decreases x,
{
    if x <= 1 {
        x == 1
    } else {
        x % 2 == 0 && is_pow2(x / 2)
    }
}

/// The leaves below node `i`, left to right, in a heap-ordered tree with `n` inner nodes.
pub open spec fn subtree_leaves(nodes: Seq<Node>, n: int, i: int) -> Seq<Node>
    decreases nodes.len() - i,
{
    if i < 0 || i >= n || 2 * i + 2 >= nodes.len() {
        seq![nodes[i]]
    } else {
        subtree_leaves(nodes, n, 2 * i + 1) + subtree_leaves(nodes, n, 2 * i + 2)
    }
}

/// Node `i` holds what its two children give.
pub open spec fn combined(nodes: Seq<Node>, i: int) -> bool {
    let l = nodes[2 * i + 1];
    let r = nodes[2 * i + 2];
    let x = nodes[i];
    &&& x.ect == max2(r.ect as int, l.ect + r.sum_p)
    &&& x.sum_p == l.sum_p + r.sum_p
    &&& x.sum_p_bar == max2(l.sum_p_bar + r.sum_p, l.sum_p + r.sum_p_bar)
    &&& x.ect_bar == max2(r.ect_bar as int, max2(l.ect + r.sum_p_bar, l.ect_bar + r.sum_p))
}

/// Node `a` is a strict ancestor of node `i`.
pub open spec fn is_ancestor(a: int, i: int) -> bool
    decreases i,
{
    if i <= 0 {
        false
    } else {
        (i - 1) / 2 == a || is_ancestor(a, (i - 1) / 2)
    }
}

pub open spec fn has_id(x: Node, id: DomainId) -> bool {
    match x.node_id {
        Some((d, _)) => d == id,
        None => false,
    }
}

/// The non-empty leaves are ordered by earliest start time.
pub open spec fn est_sorted(s: Seq<Node>) -> bool {
    forall|a: int, b: int|
        0 <= a < b < s.len() && !is_empty_leaf(s[a]) && !is_empty_leaf(s[b]) ==> est(
            #[trigger] s[a],
        ) <= est(#[trigger] s[b])
}

/// The leaf `x` with its task moved from theta to lambda.
pub open spec fn grayed(x: Node) -> Node {
    Node { ect: i32::MIN, sum_p: 0, ..x }
}

/// The leaf `x` with its task removed.
pub open spec fn emptied(x: Node) -> Node {
    Node { ect: i32::MIN, sum_p: 0, ect_bar: i32::MIN, sum_p_bar: 0, ..x }
}

pub proof fn lemma_ancestor_above(a: int, i: int)
    requires
        is_ancestor(a, i),
    ensures
        0 <= a <= (i - 1) / 2,
        i > 0,
    decreases i,
{
    if (i - 1) / 2 != a {
        lemma_ancestor_above(a, (i - 1) / 2);
    }
}

/// The leaves below a node of width `w` (a power of two) are a contiguous run of the
/// leaf level.
pub proof fn lemma_subtree_range(nodes: Seq<Node>, n: int, i: int, w: int)
    requires
        nodes.len() == 2 * n + 1,
        n >= 0,
        i >= 0,
        w >= 1,
        is_pow2(w),
        n <= (i + 1) * w - 1,
        (i + 2) * w - 1 <= 2 * n + 1,
    ensures
        subtree_leaves(nodes, n, i) == nodes.subrange((i + 1) * w - 1, (i + 2) * w - 1),
    decreases w,
{
    if w == 1 {
        assert((i + 1) * w == i + 1 && (i + 2) * w == i + 2) by (nonlinear_arith)
            requires
                w == 1,
        ;
        assert(nodes.subrange(i, i + 1) =~= seq![nodes[i]]);
    } else {
        let h = w / 2;
        assert(w == 2 * h);
        assert(is_pow2(h));
        assert((i + 2) * w >= 2 * (i + 2)) by (nonlinear_arith)
            requires
                w >= 2,
                i >= 0,
        ;
        assert(i < n);
        assert((2 * i + 2) * h == (i + 1) * w) by (nonlinear_arith)
            requires
                w == 2 * h,
        ;
        assert((2 * i + 3) * h == (i + 1) * w + h) by (nonlinear_arith)
            requires
                w == 2 * h,
        ;
        assert((2 * i + 4) * h == (i + 2) * w) by (nonlinear_arith)
            requires
                w == 2 * h,
        ;
        assert((i + 2) * w == (i + 1) * w + w) by (nonlinear_arith);
        assert(h >= 1);
        let a = (i + 1) * w - 1;
        let b = a + h;
        let c = (i + 2) * w - 1;
        assert(c == a + 2 * h);
        lemma_subtree_range(nodes, n, 2 * i + 1, h);
        lemma_subtree_range(nodes, n, 2 * i + 2, h);
        assert(nodes.subrange(a, b) + nodes.subrange(b, c) =~= nodes.subrange(a, c));
    }
}

/// The leaves below any node are valid leaves.
pub proof fn lemma_subtree_ok(nodes: Seq<Node>, n: int, i: int)
    requires
        nodes.len() == 2 * n + 1,
        0 <= i < nodes.len(),
        forall|k: int| n <= k < nodes.len() ==> #[trigger] leaf_ok(nodes[k]),
    ensures
        all_leaf_ok(subtree_leaves(nodes, n, i)),
    decreases nodes.len() - i,
{
    if i >= n || 2 * i + 2 >= nodes.len() {
        assert(leaf_ok(nodes[i]));
        assert(all_leaf_ok(seq![nodes[i]])) by {
            assert forall|k: int| 0 <= k < 1 implies #[trigger] leaf_ok(seq![nodes[i]][k]) by {
                assert(seq![nodes[i]][k] == nodes[i]);
            }
        }
    } else {
        lemma_subtree_ok(nodes, n, 2 * i + 1);
        lemma_subtree_ok(nodes, n, 2 * i + 2);
        lemma_all_ok_concat(subtree_leaves(nodes, n, 2 * i + 1), subtree_leaves(nodes, n, 2 * i + 2));
    }
}

/// A node whose inner descendants all hold what their children give summarises the
/// leaves below it.
pub proof fn lemma_subtree_summary(nodes: Seq<Node>, n: int, i: int)
    requires
        nodes.len() == 2 * n + 1,
        0 <= i < nodes.len(),
        forall|k: int| n <= k < nodes.len() ==> #[trigger] leaf_ok(nodes[k]),
        forall|k: int| i <= k < n ==> #[trigger] combined(nodes, k),
    ensures
        summarises(nodes[i], subtree_leaves(nodes, n, i)),
        all_leaf_ok(subtree_leaves(nodes, n, i)),
    decreases nodes.len() - i,
{
    lemma_subtree_ok(nodes, n, i);
    if i >= n || 2 * i + 2 >= nodes.len() {
        assert(leaf_ok(nodes[i]));
        lemma_singleton(nodes[i]);
    } else {
        let l = subtree_leaves(nodes, n, 2 * i + 1);
        let r = subtree_leaves(nodes, n, 2 * i + 2);
        lemma_subtree_summary(nodes, n, 2 * i + 1);
        lemma_subtree_summary(nodes, n, 2 * i + 2);
        lemma_concat(l, r);
        assert(combined(nodes, i));
    }
}

/// The total duration below a node is at most that below the root.
pub proof fn lemma_subtree_total(nodes: Seq<Node>, n: int, i: int)
    requires
        nodes.len() == 2 * n + 1,
        0 <= i < nodes.len(),
        forall|k: int| n <= k < nodes.len() ==> #[trigger] leaf_ok(nodes[k]),
    ensures
        0 <= total_p(subtree_leaves(nodes, n, i)) <= total_p(subtree_leaves(nodes, n, 0)),
    decreases i,
{
    lemma_subtree_ok(nodes, n, i);
    lemma_summary_bounds(subtree_leaves(nodes, n, i));
    if i > 0 {
        let p = (i - 1) / 2;
        lemma_subtree_total(nodes, n, p);
        assert(p < n && 2 * p + 2 < nodes.len());
        lemma_subtree_ok(nodes, n, 2 * p + 1);
        lemma_subtree_ok(nodes, n, 2 * p + 2);
        lemma_summary_bounds(subtree_leaves(nodes, n, 2 * p + 1));
        lemma_summary_bounds(subtree_leaves(nodes, n, 2 * p + 2));
        lemma_concat(subtree_leaves(nodes, n, 2 * p + 1), subtree_leaves(nodes, n, 2 * p + 2));
    }
}

/// An empty leaf that never held a task.
pub open spec fn unused_leaf() -> Node {
    Node { ect: i32::MIN, sum_p: 0, ect_bar: i32::MIN, sum_p_bar: 0, node_id: None }
}

/// The white leaf of task `t` (a start time view and a duration) under the bounds `a`.
pub open spec fn task_leaf(t: (IntVar, i32), a: &Assignments) -> Node {
    Node {
        ect: (t.0.view_lb(a) + t.1) as i32,
        sum_p: t.1,
        ect_bar: (t.0.view_lb(a) + t.1) as i32,
        sum_p_bar: t.1,
        node_id: Some((t.0.domain, t.0)),
    }
}

/// The start time view and duration of each task.
pub open spec fn task_pairs(tasks: Seq<DisjunctiveTask>) -> Seq<(IntVar, i32)> {
    tasks.map_values(|t: DisjunctiveTask| (t.start_times, t.duration))
}

/// The pairs of `tasks[i]` and `durations[i]`, as many as the shorter list has.
pub open spec fn zip_pairs(tasks: Seq<IntVar>, durations: Seq<i32>) -> Seq<(IntVar, i32)> {
    Seq::new(
        if tasks.len() <= durations.len() { tasks.len() } else { durations.len() },
        |i: int| (tasks[i], durations[i]),
    )
}

/// The earliest start times of the tasks, the keys by which a tree orders them.
pub open spec fn lb_keys(z: Seq<(IntVar, i32)>, a: &Assignments) -> Seq<i32> {
    z.map_values(|t: (IntVar, i32)| t.0.view_lb(a) as i32)
}

pub open spec fn durations_of(z: Seq<(IntVar, i32)>) -> Seq<int> {
    z.map_values(|t: (IntVar, i32)| t.1 as int)
}

/// The leaf level of a tree of width `m` built from the tasks `z` taken in `order`.
pub open spec fn leaves_for(z: Seq<(IntVar, i32)>, a: &Assignments, order: Seq<usize>, m: int) -> Seq<Node> {
    Seq::new(
        m as nat,
        |k: int|
            if k < z.len() {
                task_leaf(z[order[k] as int], a)
            } else {
                unused_leaf()
            },
    )
}

/// The tasks a tree can be built from under the bounds `a`.
pub open spec fn tasks_ok(z: Seq<(IntVar, i32)>, a: &Assignments) -> bool {
    &&& a.wf()
    &&& z.len() <= usize::MAX / 16
    &&& forall|k: int| 0 <= k < z.len() ==> (#[trigger] z[k]).0.valid(a) && 0 <= z[k].1
    &&& sum_int(durations_of(z)) <= TREE_LIMIT
}

/// `m` is the smallest power of two that is at least `len` (and at least one).
pub open spec fn next_power_of_two_of(len: int, m: int) -> bool {
    &&& is_pow2(m)
    &&& m >= len
    &&& (m == 1 || m / 2 < len)
}

/// What the white leaf of a task of a valid task list is.
pub proof fn lemma_task_leaf(z: Seq<(IntVar, i32)>, a: &Assignments, t: int)
    requires
        tasks_ok(z, a),
        0 <= t < z.len(),
    ensures
        leaf_ok(task_leaf(z[t], a)),
        !is_empty_leaf(task_leaf(z[t], a)),
        is_white(task_leaf(z[t], a)),
        est(task_leaf(z[t], a)) == z[t].0.view_lb(a),
        lb_keys(z, a)[t] == z[t].0.view_lb(a),
        -TREE_LIMIT <= z[t].0.view_lb(a) <= TREE_LIMIT,
        0 <= z[t].1 <= TREE_LIMIT,
{
    assert(z[t].0.valid(a));
    a.lemma_bounds();
    let w = durations_of(z);
    assert forall|k: int| 0 <= k < w.len() implies #[trigger] w[k] >= 0 by {
        assert(z[k].0.valid(a));
    }
    lemma_sum_member(w, t);
}

pub proof fn lemma_sum_member(w: Seq<int>, t: int)
    requires
        0 <= t < w.len(),
        forall|k: int| 0 <= k < w.len() ==> #[trigger] w[k] >= 0,
    ensures
        w[t] <= sum_int(w),
    decreases w.len(),
{
    lemma_sum_nonneg_all(w.drop_last());
    if t < w.len() - 1 {
        assert(w.drop_last()[t] == w[t]);
        lemma_sum_member(w.drop_last(), t);
        assert(w[w.len() - 1] >= 0);
    }
}

pub proof fn lemma_sum_nonneg_all(w: Seq<int>)
    requires
        forall|k: int| 0 <= k < w.len() ==> #[trigger] w[k] >= 0,
    ensures
        sum_int(w) >= 0,
{
    crate::sorting::lemma_sum_nonneg(w);
}

pub proof fn lemma_total_zero(s: Seq<Node>)
    requires
        forall|k: int| 0 <= k < s.len() ==> #[trigger] s[k].sum_p_bar == 0,
    ensures
        total_p(s) == 0,
    decreases s.len(),
{
    if s.len() > 0 {
        assert(s[0].sum_p_bar == 0);
        assert forall|k: int| 0 <= k < s.drop_first().len() implies #[trigger] s.drop_first()[k].sum_p_bar == 0 by {
            assert(s.drop_first()[k] == s[k + 1]);
        }
        lemma_total_zero(s.drop_first());
    }
}

fn next_power_of_two(len: usize) -> (r: usize)
    requires
        len <= usize::MAX / 16,
    ensures
        next_power_of_two_of(len as int, r as int),
{
    let mut m: usize = 1;
    while m < len
        invariant
            is_pow2(m as int),
            m == 1 || m / 2 < len,
            len <= usize::MAX / 16,
            m <= usize::MAX / 8,
        decreases 2 * len - m,
    {
        assert(is_pow2((2 * m) as int)) by {
            assert((2 * m) as int / 2 == m);
        }
        m = 2 * m;
    }
    m
}

/// The larger of two integers.
pub(crate) fn max_i32(a: i32, b: i32) -> (r: i32)
    ensures
        r == max2(a as int, b as int),
{
    if a >= b {
        a
    } else {
        b
    }
}

impl Node {
    /// An empty node.
    pub fn new() -> (r: Node)
        ensures
            is_empty_leaf(r),
            r.node_id is None,
    {
        Node { ect: i32::MIN, sum_p: 0, ect_bar: i32::MIN, sum_p_bar: 0, node_id: None }
    }

    /// A leaf for a task in theta that completes at `ect` and lasts `p`.
    pub fn white_node(ect: i32, p: i32) -> (r: Node)
        ensures
            r.ect == ect,
            r.sum_p == p,
            r.ect_bar == ect,
            r.sum_p_bar == p,
            r.node_id is None,
    {
        Node { ect, sum_p: p, ect_bar: ect, sum_p_bar: p, node_id: None }
    }

    /// Moves the task of this leaf from theta to lambda.
    pub fn to_gray(&mut self)
        ensures
            *final(self) == grayed(*old(self)),
    {
        self.ect = i32::MIN;
        self.sum_p = 0;
    }

    /// Removes the task of this leaf.
    pub fn to_empty(&mut self)
        ensures
            *final(self) == emptied(*old(self)),
    {
        self.ect = i32::MIN;
        self.sum_p = 0;
        self.ect_bar = i32::MIN;
        self.sum_p_bar = 0;
    }

    /// The leaf holds a task (in theta or in lambda).
    pub fn is_leaf(&self) -> (r: bool)
        ensures
            r == (self.ect_bar != i32::MIN),
    {
        self.ect_bar != i32::MIN
    }

    /// The leaf holds a task of lambda.
    pub fn is_gray(&self) -> (r: bool)
        ensures
            r == (self.ect == i32::MIN && self.ect_bar != i32::MIN),
    {
        self.ect == i32::MIN && self.is_leaf()
    }
}

/// A theta-lambda tree: `nodes` in heap order, the first `n` inner, the rest leaves.
#[derive(Debug)]
pub struct ThetaLambdaTree {
    pub nodes: Vec<Node>,
    pub n: usize,
    pub num_tasks: usize,
}

impl ThetaLambdaTree {
    /// The nodes form a complete binary tree of `n` inner nodes, which hold no task, over a
    /// power of two of leaves.
    pub open spec fn shape_ok(&self) -> bool {
        &&& self.nodes@.len() == 2 * self.n + 1
        &&& is_pow2(self.n + 1)
        &&& self.num_tasks <= self.n + 1
        &&& self.nodes@.len() <= usize::MAX / 4
        &&& forall|k: int| 0 <= k < self.n ==> (#[trigger] self.nodes@[k]).node_id is None
    }

    /// The leaves below node `i`, left to right.
    pub open spec fn subtree(&self, i: int) -> Seq<Node> {
        subtree_leaves(self.nodes@, self.n as int, i)
    }

    /// The leaf level, left to right.
    pub open spec fn leaves(&self) -> Seq<Node> {
        self.nodes@.subrange(self.n as int, self.nodes@.len() as int)
    }

    /// Every leaf is a valid leaf, and the durations of the tasks together stay within
    /// `TREE_LIMIT`.
    pub open spec fn leaves_valid(&self) -> bool {
        &&& forall|k: int| self.n <= k < self.nodes@.len() ==> #[trigger] leaf_ok(self.nodes@[k])
        &&& total_p(self.leaves()) <= TREE_LIMIT
    }

    /// The leaves are valid and in order of earliest start.
    pub open spec fn leaves_ok(&self) -> bool {
        &&& self.leaves_valid()
        &&& est_sorted(self.leaves())
    }

    /// All inner nodes from index `lo` on hold what their children give.
    pub open spec fn inner_ok_from(&self, lo: int) -> bool {
        forall|k: int| lo <= k < self.n ==> #[trigger] combined(self.nodes@, k)
    }

    pub open spec fn wf(&self) -> bool {
        &&& self.shape_ok()
        &&& self.leaves_ok()
        &&& self.inner_ok_from(0)
    }

    /// The leaves of a well-formed tree are valid, and the root summarises them.
    pub proof fn lemma_root(&self)
        requires
            self.wf(),
        ensures
            summarises(self.nodes@[0], self.leaves()),
            all_leaf_ok(self.leaves()),
            subtree_leaves(self.nodes@, self.n as int, 0) == self.leaves(),
            self.leaves().len() == self.n + 1,
    {
        lemma_subtree_range(self.nodes@, self.n as int, 0, self.n + 1);
        lemma_subtree_summary(self.nodes@, self.n as int, 0);
    }

    pub fn get_left_child(&self, i: usize) -> (r: usize)
        requires
            i <= (usize::MAX - 1) / 2,
        ensures
            r == 2 * i + 1,
    {
        2 * i + 1
    }

    pub fn get_right_child(&self, i: usize) -> (r: usize)
        requires
            i <= (usize::MAX - 2) / 2,
        ensures
            r == 2 * i + 2,
    {
        2 * i + 2
    }

    pub fn get_parent(&self, i: usize) -> (r: usize)
        requires
            i >= 1,
        ensures
            r == (i - 1) / 2,
    {
        (i - 1) / 2
    }

    /// Builds the tree of the tasks `zipped`, each a start time view and a duration: all in
    /// theta, ordered by earliest start time (stable for equal ones), over the smallest
    /// power of two of leaves that holds them.
    pub fn new(zipped: Vec<(IntVar, i32)>, assignment: &Assignments) -> (r: Self)
        requires
            tasks_ok(zipped@, assignment),
        ensures
            r.wf(),
            r.num_tasks == zipped@.len(),
            next_power_of_two_of(zipped@.len() as int, r.n + 1),
            exists|order: Seq<usize>|
                {
                    &&& is_stable_order(order, lb_keys(zipped@, assignment))
                    &&& r.leaves() == leaves_for(zipped@, assignment, order, r.n + 1)
                },
    {
        let len = zipped.len();
        let mut keys: Vec<i32> = Vec::new();
        let mut i: usize = 0;
        while i < len
            invariant
                i <= len,
                len == zipped@.len(),
                tasks_ok(zipped@, assignment),
                keys@ == lb_keys(zipped@, assignment).take(i as int),
            decreases len - i,
        {
            assert(zipped@[i as int].0.valid(assignment));
            keys.push(assignment.lower_bound(zipped[i].0));
            i = i + 1;
        }
        assert(keys@ =~= lb_keys(zipped@, assignment));
        let order = stable_order(&keys);
        proof {
            lemma_stable_order_distinct(order@, keys@);
        }
        let next_p2 = next_power_of_two(len);
        let size = 2 * next_p2 - 1;
        let mut nodes: Vec<Node> = Vec::new();
        let mut k: usize = 0;
        while k < size
            invariant
                k <= size,
                nodes@.len() == k,
                forall|j: int| 0 <= j < k ==> #[trigger] nodes@[j] == unused_leaf(),
            decreases size - k,
        {
            nodes.push(Node::new());
            k = k + 1;
        }
        let ghost m = next_p2 as int;
        let ghost w = durations_of(zipped@);
        proof {
            assert forall|k: int| 0 <= k < w.len() implies #[trigger] w[k] >= 0 by {
                assert(zipped@[k].0.valid(assignment));
            }
            lemma_sum_selected_le(w, order@);
        }
        proof {
            let lv = nodes@.subrange(m - 1, size as int);
            assert forall|k: int| 0 <= k < lv.len() implies #[trigger] lv[k].sum_p_bar == 0 by {
                assert(lv[k] == nodes@[m - 1 + k]);
            }
            lemma_total_zero(lv);
            assert(order@.take(0) =~= Seq::<usize>::empty());
        }
        let mut i: usize = 0;
        while i < len
            invariant
                i <= len,
                len == zipped@.len(),
                len <= m,
                m == next_p2,
                size == 2 * m - 1,
                nodes@.len() == size,
                tasks_ok(zipped@, assignment),
                w == durations_of(zipped@),
                is_stable_order(order@, lb_keys(zipped@, assignment)),
                sum_selected(w, order@) <= TREE_LIMIT,
                forall|j: int| 0 <= j < i ==> #[trigger] nodes@[m - 1 + j] == task_leaf(zipped@[order@[j] as int], assignment),
                forall|j: int| i <= j < m ==> #[trigger] nodes@[m - 1 + j] == unused_leaf(),
                forall|j: int| 0 <= j < m - 1 ==> #[trigger] nodes@[j] == unused_leaf(),
                total_p(nodes@.subrange(m - 1, size as int)) == sum_selected(w, order@.take(i as int)),
            decreases len - i,
        {
            let t = order[i];
            assert(order@[i as int] < len);
            let (var, duration) = zipped[t];
            proof {
                lemma_task_leaf(zipped@, assignment, t as int);
            }
            let est = assignment.lower_bound(var);
            let mut node = Node::white_node(est + duration, duration);
            node.node_id = Some((var.domain_id(), var));
            let ghost prev = nodes@;
            nodes.set(next_p2 - 1 + i, node);
            proof {
                let lv = prev.subrange(m - 1, size as int);
                assert(nodes@.subrange(m - 1, size as int) =~= lv.update(i as int, node));
                lemma_total_update(lv, i as int, node);
                assert(lv[i as int] == unused_leaf());
                assert(order@.take(i + 1).drop_last() =~= order@.take(i as int));
                assert(node == task_leaf(zipped@[order@[i as int] as int], assignment));
                assert forall|j: int| 0 <= j < i + 1 implies #[trigger] nodes@[m - 1 + j] == task_leaf(zipped@[order@[j] as int], assignment) by {
                    if j < i {
                        assert(nodes@[m - 1 + j] == prev[m - 1 + j]);
                    }
                }
                assert forall|j: int| i + 1 <= j < m implies #[trigger] nodes@[m - 1 + j] == unused_leaf() by {
                    assert(nodes@[m - 1 + j] == prev[m - 1 + j]);
                }
                assert forall|j: int| 0 <= j < m - 1 implies #[trigger] nodes@[j] == unused_leaf() by {
                    assert(nodes@[j] == prev[j]);
                }
                lemma_sum_selected_prefix(w, order@, i as int);
            }
            i = i + 1;
        }
        let mut tree = ThetaLambdaTree { nodes, n: next_p2 - 1, num_tasks: len };
        let ghost order_s = order@;
        proof {
            assert(order@.take(len as int) =~= order@);
            assert(tree.leaves() =~= leaves_for(zipped@, assignment, order@, m)) by {
                assert forall|j: int| 0 <= j < m implies #[trigger] tree.leaves()[j] == leaves_for(zipped@, assignment, order@, m)[j] by {
                    assert(tree.leaves()[j] == tree.nodes@[m - 1 + j]);
                }
            }
            assert forall|k: int| tree.n <= k < tree.nodes@.len() implies #[trigger] leaf_ok(tree.nodes@[k]) by {
                let j = k - (m - 1);
                if j < len {
                    let t = order@[j];
                    lemma_task_leaf(zipped@, assignment, t as int);
                } else {
                    assert(tree.nodes@[m - 1 + j] == unused_leaf());
                }
            }
            assert(est_sorted(tree.leaves())) by {
                assert forall|a: int, b: int|
                    0 <= a < b < tree.leaves().len() && !is_empty_leaf(tree.leaves()[a])
                        && !is_empty_leaf(tree.leaves()[b]) implies est(#[trigger] tree.leaves()[a])
                    <= est(#[trigger] tree.leaves()[b]) by {
                    assert(tree.leaves()[a] == tree.nodes@[m - 1 + a]);
                    assert(tree.leaves()[b] == tree.nodes@[m - 1 + b]);
                    assert(b < len);
                    let ta = order@[a];
                    let tb = order@[b];
                    assert(key_before(lb_keys(zipped@, assignment), ta as int, tb as int));
                    lemma_task_leaf(zipped@, assignment, ta as int);
                    lemma_task_leaf(zipped@, assignment, tb as int);
                }
            }
        }
        let mut i = tree.n;
        while i > 0
            invariant
                i <= tree.n,
                tree.shape_ok(),
                tree.leaves_ok(),
                tree.inner_ok_from(i as int),
                tree.num_tasks == len,
                tree.n == m - 1,
                tree.leaves() == leaves_for(zipped@, assignment, order_s, m),
            decreases i,
        {
            i = i - 1;
            let ghost prev = tree.nodes@;
            tree.update_node(i);
            proof {
                assert(tree.leaves() =~= leaves_for(zipped@, assignment, order_s, m)) by {
                    assert forall|j: int| 0 <= j < m implies #[trigger] tree.leaves()[j] == prev[m - 1 + j] by {}
                }
                assert forall|k: int| i <= k < tree.n implies #[trigger] combined(tree.nodes@, k) by {
                    if k != i {
                        assert(combined(prev, k));
                    }
                }
            }
        }
        tree
    }

    /// Builds the tree of `tasks[i]` with duration `durations[i]` (as many as the shorter
    /// list has).
    pub fn from_vectors(tasks: Vec<IntVar>, durations: Vec<i32>, assignment: &Assignments) -> (r: Self)
        requires
            tasks_ok(zip_pairs(tasks@, durations@), assignment),
        ensures
            r.wf(),
            r.num_tasks == zip_pairs(tasks@, durations@).len(),
            next_power_of_two_of(zip_pairs(tasks@, durations@).len() as int, r.n + 1),
            exists|order: Seq<usize>|
                {
                    &&& is_stable_order(order, lb_keys(zip_pairs(tasks@, durations@), assignment))
                    &&& r.leaves() == leaves_for(zip_pairs(tasks@, durations@), assignment, order, r.n + 1)
                },
    {
        let ghost z = zip_pairs(tasks@, durations@);
        let len = if tasks.len() <= durations.len() { tasks.len() } else { durations.len() };
        let mut zipped: Vec<(IntVar, i32)> = Vec::new();
        let mut i: usize = 0;
        while i < len
            invariant
                i <= len,
                len == z.len(),
                z == zip_pairs(tasks@, durations@),
                zipped@ == z.take(i as int),
            decreases len - i,
        {
            zipped.push((tasks[i], durations[i]));
            i = i + 1;
        }
        assert(zipped@ =~= z);
        Self::new(zipped, assignment)
    }

    /// Builds the tree of the tasks of a disjunctive constraint.
    pub fn from_disjunctive(tasks: &Vec<DisjunctiveTask>, assignment: &Assignments) -> (r: Self)
        requires
            tasks_ok(task_pairs(tasks@), assignment),
        ensures
            r.wf(),
            r.num_tasks == tasks@.len(),
            next_power_of_two_of(tasks@.len() as int, r.n + 1),
            exists|order: Seq<usize>|
                {
                    &&& is_stable_order(order, lb_keys(task_pairs(tasks@), assignment))
                    &&& r.leaves() == leaves_for(task_pairs(tasks@), assignment, order, r.n + 1)
                },
    {
        let ghost z = task_pairs(tasks@);
        let mut cloned_tasks: Vec<(IntVar, i32)> = Vec::new();
        let mut i: usize = 0;
        while i < tasks.len()
            invariant
                i <= tasks@.len(),
                z == task_pairs(tasks@),
                cloned_tasks@ == z.take(i as int),
            decreases tasks@.len() - i,
        {
            cloned_tasks.push((tasks[i].start_times, tasks[i].duration));
            i = i + 1;
        }
        assert(cloned_tasks@ =~= z);
        Self::new(cloned_tasks, assignment)
    }

    /// Recomputes inner node `index` from its children; a leaf is left as it is.
    pub fn update_node(&mut self, index: usize)
        requires
            old(self).shape_ok(),
            old(self).leaves_valid(),
            index < old(self).nodes@.len(),
            old(self).inner_ok_from(index + 1),
        ensures
            final(self).n == old(self).n,
            final(self).num_tasks == old(self).num_tasks,
            final(self).nodes@.len() == old(self).nodes@.len(),
            index < old(self).n ==> combined(final(self).nodes@, index as int),
            index >= old(self).n ==> final(self).nodes@ == old(self).nodes@,
            forall|k: int| 0 <= k < old(self).nodes@.len() && k != index ==> #[trigger] final(self).nodes@[k] == old(self).nodes@[k],
            final(self).nodes@[index as int].node_id == old(self).nodes@[index as int].node_id,
    {
        let left = self.get_left_child(index);
        let right = self.get_right_child(index);
        if left < self.nodes.len() {
            proof {
                let nodes = self.nodes@;
                let n = self.n as int;
                lemma_subtree_range(nodes, n, 0, n + 1);
                lemma_subtree_summary(nodes, n, left as int);
                lemma_subtree_summary(nodes, n, right as int);
                lemma_subtree_total(nodes, n, left as int);
                lemma_subtree_total(nodes, n, right as int);
                lemma_summary_bounds(subtree_leaves(nodes, n, left as int));
                lemma_summary_bounds(subtree_leaves(nodes, n, right as int));
            }
            let l = self.nodes[left];
            let r = self.nodes[right];
            let mut node = self.nodes[index];
            node.ect = max_i32(r.ect, l.ect + r.sum_p);
            node.sum_p = l.sum_p + r.sum_p;
            node.sum_p_bar = max_i32(l.sum_p_bar + r.sum_p, l.sum_p + r.sum_p_bar);
            node.ect_bar = max_i32(r.ect_bar, max_i32(l.ect + r.sum_p_bar, l.ect_bar + r.sum_p));
            self.nodes.set(index, node);
        }
    }

    /// Recomputes the ancestors of `index`, from its parent up to the root.
    pub fn update_node_along_path(&mut self, index: usize)
        requires
            old(self).shape_ok(),
            old(self).leaves_valid(),
            index < old(self).nodes@.len(),
            forall|k: int|
                0 <= k < old(self).n && !is_ancestor(k, index as int) ==> #[trigger] combined(
                    old(self).nodes@,
                    k,
                ),
        ensures
            final(self).shape_ok(),
            final(self).leaves_valid(),
            final(self).inner_ok_from(0),
            final(self).n == old(self).n,
            final(self).num_tasks == old(self).num_tasks,
            final(self).leaves() == old(self).leaves(),
    {
        let mut i = index;
        while i > 0
            invariant
                self.shape_ok(),
                self.leaves_valid(),
                self.n == old(self).n,
                self.num_tasks == old(self).num_tasks,
                self.leaves() == old(self).leaves(),
                i < self.nodes@.len(),
                forall|k: int|
                    0 <= k < self.n && !is_ancestor(k, i as int) ==> #[trigger] combined(
                        self.nodes@,
                        k,
                    ),
            decreases i,
        {
            let ghost prev = self.nodes@;
            let ghost old_i = i as int;
            i = self.get_parent(i);
            proof {
                assert forall|k: int| i + 1 <= k < self.n implies #[trigger] combined(
                    self.nodes@,
                    k,
                ) by {
                    if is_ancestor(k, old_i) {
                        lemma_ancestor_above(k, old_i);
                    }
                }
            }
            self.update_node(i);
            proof {
                assert(self.leaves() =~= old(self).leaves());
                assert forall|k: int|
                    0 <= k < self.n && !is_ancestor(k, i as int) implies #[trigger] combined(
                        self.nodes@,
                        k,
                    ) by {
                    if k != i {
                        assert(!is_ancestor(k, old_i));
                        assert(combined(prev, k));
                        if 2 * k + 1 == i || 2 * k + 2 == i {
                            assert(k == (i - 1) / 2);
                        }
                    }
                }
            }
        }
    }

    /// Moves the task of leaf `index` from theta to lambda.
    pub fn convert_to_gray_index(&mut self, index: usize)
        requires
            old(self).wf(),
            old(self).n <= index < old(self).nodes@.len(),
        ensures
            final(self).wf(),
            final(self).n == old(self).n,
            final(self).num_tasks == old(self).num_tasks,
            final(self).leaves() == old(self).leaves().update(
                index - old(self).n,
                grayed(old(self).nodes@[index as int]),
            ),
    {
        let mut node = self.nodes[index];
        node.to_gray();
        let ghost prev = self.nodes@;
        self.nodes.set(index, node);
        proof {
            let lv = prev.subrange(self.n as int, prev.len() as int);
            let j = index - self.n;
            assert(self.leaves() =~= lv.update(j, node));
            assert(leaf_ok(prev[index as int]));
            assert(total_p(self.leaves()) == total_p(lv)) by {
                lemma_total_update(lv, j, node);
            }
            assert forall|k: int| self.n <= k < self.nodes@.len() implies #[trigger] leaf_ok(
                self.nodes@[k],
            ) by {
                if k != index {
                    assert(self.nodes@[k] == prev[k]);
                }
            }
            assert(est_sorted(self.leaves())) by {
                assert forall|a: int, b: int|
                    0 <= a < b < self.leaves().len() && !is_empty_leaf(self.leaves()[a])
                        && !is_empty_leaf(self.leaves()[b]) implies est(
                    #[trigger] self.leaves()[a],
                ) <= est(#[trigger] self.leaves()[b]) by {
                    assert(est_sorted(lv));
                    assert(lv[a] == prev[self.n + a]);
                    assert(lv[b] == prev[self.n + b]);
                }
            }
            assert forall|k: int|
                0 <= k < self.n && !is_ancestor(k, index as int) implies #[trigger] combined(
                self.nodes@,
                k,
            ) by {
                assert(combined(prev, k));
                if 2 * k + 1 == index || 2 * k + 2 == index {
                    assert(k == (index - 1) / 2);
                }
            }
        }
        self.update_node_along_path(index);
    }

    /// The first leaf that holds domain `id`.
    pub fn find_id(&self, id: DomainId) -> (r: Option<usize>)
        requires
            self.shape_ok(),
        ensures
            match r {
                Some(i) => {
                    &&& self.n <= i < self.nodes@.len()
                    &&& has_id(self.nodes@[i as int], id)
                    &&& forall|k: int| self.n <= k < i ==> !has_id(#[trigger] self.nodes@[k], id)
                },
                None => forall|k: int|
                    self.n <= k < self.nodes@.len() ==> !has_id(#[trigger] self.nodes@[k], id),
            },
    {
        let mut i = self.n;
        while i < self.nodes.len()
            invariant
                self.n <= i <= self.nodes@.len(),
                forall|k: int| self.n <= k < i ==> !has_id(#[trigger] self.nodes@[k], id),
            decreases self.nodes@.len() - i,
        {
            match self.nodes[i].node_id {
                None => {},
                Some((did, _)) => {
                    if did == id {
                        return Some(i);
                    }
                },
            }
            i = i + 1;
        }
        None
    }

    /// Moves the task of domain `id` from theta to lambda.
    pub fn convert_to_gray_id(&mut self, id: DomainId)
        requires
            old(self).wf(),
            exists|k: int| old(self).n <= k < old(self).nodes@.len() && has_id(#[trigger] old(self).nodes@[k], id),
        ensures
            final(self).wf(),
            final(self).n == old(self).n,
            final(self).num_tasks == old(self).num_tasks,
            exists|i: int|
                {
                    &&& old(self).n <= i < old(self).nodes@.len()
                    &&& has_id(#[trigger] old(self).nodes@[i], id)
                    &&& forall|k: int| old(self).n <= k < i ==> !has_id(#[trigger] old(self).nodes@[k], id)
                    &&& final(self).leaves() == old(self).leaves().update(
                        i - old(self).n,
                        grayed(old(self).nodes@[i]),
                    )
                },
    {
        let index = self.find_id(id);
        match index {
            Some(index) => self.convert_to_gray_index(index),
            None => {
                proof {
                    let k = choose|k: int| old(self).n <= k < old(self).nodes@.len() && has_id(#[trigger] old(self).nodes@[k], id);
                    assert(!has_id(self.nodes@[k], id));
                }
            },
        }
    }

    /// Removes the task of domain `id` from the tree.
    pub fn remove_from_lambda_id(&mut self, id: DomainId)
        requires
            old(self).wf(),
            exists|k: int| old(self).n <= k < old(self).nodes@.len() && has_id(#[trigger] old(self).nodes@[k], id),
        ensures
            final(self).wf(),
            final(self).n == old(self).n,
            final(self).num_tasks == old(self).num_tasks,
            exists|i: int|
                {
                    &&& old(self).n <= i < old(self).nodes@.len()
                    &&& has_id(#[trigger] old(self).nodes@[i], id)
                    &&& forall|k: int| old(self).n <= k < i ==> !has_id(#[trigger] old(self).nodes@[k], id)
                    &&& final(self).leaves() == old(self).leaves().update(
                        i - old(self).n,
                        emptied(old(self).nodes@[i]),
                    )
                },
    {
        let index = self.find_id(id);
        match index {
            Some(index) => {
                let mut node = self.nodes[index];
                node.to_empty();
                let ghost prev = self.nodes@;
                self.nodes.set(index, node);
                proof {
                    let lv = prev.subrange(self.n as int, prev.len() as int);
                    let j = index - self.n;
                    assert(self.leaves() =~= lv.update(j, node));
                    assert(leaf_ok(prev[index as int]));
                    lemma_total_update(lv, j, node);
                    assert(total_p(self.leaves()) <= total_p(lv));
                    assert forall|k: int| self.n <= k < self.nodes@.len() implies #[trigger] leaf_ok(
                        self.nodes@[k],
                    ) by {
                        if k != index {
                            assert(self.nodes@[k] == prev[k]);
                        }
                    }
                    assert(est_sorted(self.leaves())) by {
                        assert forall|a: int, b: int|
                            0 <= a < b < self.leaves().len() && !is_empty_leaf(self.leaves()[a])
                                && !is_empty_leaf(self.leaves()[b]) implies est(
                            #[trigger] self.leaves()[a],
                        ) <= est(#[trigger] self.leaves()[b]) by {
                            assert(est_sorted(lv));
                            assert(lv[a] == prev[self.n + a]);
                            assert(lv[b] == prev[self.n + b]);
                        }
                    }
                    assert forall|k: int|
                        0 <= k < self.n && !is_ancestor(k, index as int) implies #[trigger] combined(
                        self.nodes@,
                        k,
                    ) by {
                        assert(combined(prev, k));
                        if 2 * k + 1 == index || 2 * k + 2 == index {
                            assert(k == (index - 1) / 2);
                        }
                    }
                }
                self.update_node_along_path(index);
            },
            None => {
                proof {
                    let k = choose|k: int| old(self).n <= k < old(self).nodes@.len() && has_id(#[trigger] old(self).nodes@[k], id);
                    assert(!has_id(self.nodes@[k], id));
                }
            },
        }
    }

    /// Node `i` of a well-formed tree summarises the leaves below it, within bounds.
    pub proof fn lemma_node(&self, i: int)
        requires
            self.wf(),
            0 <= i < self.nodes@.len(),
        ensures
            summarises(self.nodes@[i], subtree_leaves(self.nodes@, self.n as int, i)),
            all_leaf_ok(subtree_leaves(self.nodes@, self.n as int, i)),
            0 <= self.nodes@[i].sum_p <= self.nodes@[i].sum_p_bar <= TREE_LIMIT,
            i32::MIN + self.nodes@[i].sum_p <= self.nodes@[i].ect <= self.nodes@[i].ect_bar <= 2 * TREE_LIMIT,
            i32::MIN + self.nodes@[i].sum_p_bar <= self.nodes@[i].ect_bar,
            i < self.n ==> subtree_leaves(self.nodes@, self.n as int, i) == subtree_leaves(self.nodes@, self.n as int, 2 * i + 1) + subtree_leaves(self.nodes@, self.n as int, 2 * i + 2),
            i < self.n ==> 2 * i + 2 < self.nodes@.len(),
            i >= self.n ==> subtree_leaves(self.nodes@, self.n as int, i) == seq![self.nodes@[i]],
    {
        let nodes = self.nodes@;
        let n = self.n as int;
        lemma_subtree_range(nodes, n, 0, n + 1);
        lemma_subtree_summary(nodes, n, i);
        lemma_subtree_total(nodes, n, i);
        lemma_summary_bounds(subtree_leaves(nodes, n, i));
    }

    /// Leaf `g` is the first leaf below `index` with the largest extra duration there.
    pub open spec fn first_longest(&self, index: int, g: int) -> bool {
        &&& 0 <= g < self.subtree(index).len()
        &&& extra(self.subtree(index)[g]) == gray_extra(self.subtree(index))
        &&& forall|k: int|
            0 <= k < g ==> extra(#[trigger] self.subtree(index)[k]) != gray_extra(self.subtree(index))
    }

    /// `r` is the task of the first leaf below `index` with the largest extra duration
    /// when that leaf is gray, and `None` otherwise.
    pub open spec fn spb_first(&self, index: int, r: Option<(DomainId, IntVar, i32)>) -> bool {
        exists|g: int|
            #[trigger] self.first_longest(index, g) && match r {
                Some((id, var, p)) => is_gray_leaf(self.subtree(index)[g]) && self.subtree(index)[g].node_id == Some(
                    (id, var),
                ) && p == self.subtree(index)[g].sum_p_bar,
                None => !is_gray_leaf(self.subtree(index)[g]),
            }
    }

    /// The first leaf below `index` with the largest extra duration, when it is gray.
    pub open spec fn spb_pick(&self, index: int) -> Option<int> {
        if exists|g: int| #[trigger] self.first_longest(index, g) && is_gray_leaf(self.subtree(index)[g]) {
            Some(choose|g: int| #[trigger] self.first_longest(index, g) && is_gray_leaf(self.subtree(index)[g]))
        } else {
            None
        }
    }

    /// The gray leaf that the search for the task responsible for `nodes[index].ect_bar`
    /// arrives at, as a position among the leaves below `index`: it follows the right
    /// child when that child alone gives the value, else takes theta on the left with the
    /// longest task of lambda on the right (`spb_pick`), else follows the left child.
    pub open spec fn ectb_pick(&self, index: int) -> Option<int>
        decreases self.nodes@.len() - index,
    {
        if index < 0 || index >= self.nodes@.len() {
            None
        } else if index >= self.n {
            if is_gray_leaf(self.nodes@[index]) {
                Some(0)
            } else {
                None
            }
        } else if 2 * index + 2 >= self.nodes@.len() {
            None
        } else {
            let x = self.nodes@[index];
            let l = self.nodes@[2 * index + 1];
            let rt = self.nodes@[2 * index + 2];
            if x.ect_bar == rt.ect_bar {
                match self.ectb_pick(2 * index + 2) {
                    Some(g) => Some(self.subtree(2 * index + 1).len() + g),
                    None => None,
                }
            } else if x.ect_bar == l.ect + rt.sum_p_bar {
                match self.spb_pick(2 * index + 2) {
                    Some(g) => Some(self.subtree(2 * index + 1).len() + g),
                    None => None,
                }
            } else if x.ect_bar == l.ect_bar + rt.sum_p {
                self.ectb_pick(2 * index + 1)
            } else {
                None
            }
        }
    }

    /// `r` is the task of the leaf at position `g` below `index`, or `None` with no `g`.
    pub open spec fn names_leaf(&self, index: int, g: Option<int>, r: Option<(DomainId, IntVar, i32)>) -> bool {
        match (g, r) {
            (Some(g), Some((id, var, p))) => 0 <= g < self.subtree(index).len() && self.subtree(index)[g].node_id
                == Some((id, var)) && p == self.subtree(index)[g].sum_p_bar,
            (None, None) => true,
            _ => false,
        }
    }

    /// Only one leaf is the first with the largest extra duration.
    pub proof fn lemma_spb_pick(&self, index: int, r: Option<(DomainId, IntVar, i32)>)
        requires
            self.spb_first(index, r),
        ensures
            self.names_leaf(index, self.spb_pick(index), r),
    {
        let s = self.subtree(index);
        let g = choose|g: int|
            #[trigger] self.first_longest(index, g) && match r {
                Some((id, var, p)) => is_gray_leaf(s[g]) && s[g].node_id == Some((id, var)) && p == s[g].sum_p_bar,
                None => !is_gray_leaf(s[g]),
            };
        if exists|g2: int| #[trigger] self.first_longest(index, g2) && is_gray_leaf(s[g2]) {
            let g2 = choose|g2: int| #[trigger] self.first_longest(index, g2) && is_gray_leaf(s[g2]);
            if g2 < g {
                assert(extra(s[g2]) != gray_extra(s));
            } else if g < g2 {
                assert(extra(s[g]) != gray_extra(s));
            }
            assert(g == g2);
        }
    }

    /// `r` names a task of lambda below `index` that, added to theta, gives the total
    /// duration `nodes[index].sum_p_bar`; `None` only when that is no more than theta's.
    pub open spec fn spb_responsible(&self, index: int, r: Option<(DomainId, IntVar, i32)>) -> bool {
        match r {
            Some((id, var, p)) => exists|g: int|
                {
                    &&& 0 <= g < self.subtree(index).len()
                    &&& #[trigger] is_gray_leaf(self.subtree(index)[g])
                    &&& self.subtree(index)[g].node_id == Some((id, var))
                    &&& p == self.subtree(index)[g].sum_p_bar
                    &&& sum_p_of(whiten(self.subtree(index), g)) == self.nodes@[index].sum_p_bar
                },
            None => self.nodes@[index].sum_p_bar <= self.nodes@[index].sum_p,
        }
    }

    /// `r` names a task `g` of lambda below `index` that, added to theta, gives the
    /// completion time `nodes[index].ect_bar` by a run of theta that starts at `g` or at a
    /// white leaf before it; `None` only when that is no more than theta's.
    pub open spec fn ectb_responsible(&self, index: int, r: Option<(DomainId, IntVar, i32)>) -> bool {
        match r {
            Some((id, var, p)) => exists|g: int, k: int|
                {
                    &&& 0 <= k <= g < self.subtree(index).len()
                    &&& #[trigger] is_gray_leaf(self.subtree(index)[g])
                    &&& self.subtree(index)[g].node_id == Some((id, var))
                    &&& p == self.subtree(index)[g].sum_p_bar
                    &&& (k == g || is_white(self.subtree(index)[k]))
                    &&& #[trigger] term(whiten(self.subtree(index), g), k) == self.nodes@[index].ect_bar
                },
            None => self.nodes@[index].ect_bar <= self.nodes@[index].ect,
        }
    }

    /// A task of lambda that, added to theta, gives the total duration
    /// `nodes[index].sum_p_bar` below `index`: its domain, start time view and duration.
    pub fn responsible_sum_p_bar(&self, index: usize) -> (r: Option<(DomainId, IntVar, i32)>)
        requires
            self.wf(),
            index < self.nodes@.len(),
        ensures
            self.spb_responsible(index as int, r),
            self.spb_first(index as int, r),
        decreases self.nodes@.len() - index,
    {
        proof {
            self.lemma_node(index as int);
        }
        if index >= self.n {
            proof {
                let s = self.subtree(index as int);
                assert(s[0] == self.nodes@[index as int]);
                assert(s.drop_first() =~= Seq::<Node>::empty());
                lemma_extra_le(s, 0);
                assert(gray_extra(s) == extra(s[0]));
                assert(self.first_longest(index as int, 0));
            }
            if self.nodes[index].is_gray() {
                proof {
                    let s = subtree_leaves(self.nodes@, self.n as int, index as int);
                    assert(s[0] == self.nodes@[index as int]);
                    assert(leaf_ok(s[0]));
                    lemma_whitened_ok(s[0]);
                    let w = whiten(s, 0);
                    assert(w =~= seq![w[0]]);
                    lemma_singleton(w[0]);
                    assert(is_gray_leaf(self.subtree(index as int)[0]));
                }
                let r = match self.nodes[index].node_id {
                    Some((id, var)) => Some((id, var, self.nodes[index].sum_p_bar)),
                    None => None,
                };
                proof {
                    assert(leaf_ok(self.nodes@[index as int]));
                    assert(self.subtree(index as int)[0] == self.nodes@[index as int]);
                }
                assert(self.spb_responsible(index as int, r));
                r
            } else {
                assert(leaf_ok(self.nodes@[index as int]));
                assert(self.spb_responsible(index as int, None));
                None
            }
        } else {
            let left = self.get_left_child(index);
            let right = self.get_right_child(index);
            proof {
                self.lemma_node(left as int);
                self.lemma_node(right as int);
                assert(combined(self.nodes@, index as int));
            }
            let ghost sl = subtree_leaves(self.nodes@, self.n as int, left as int);
            let ghost sr = subtree_leaves(self.nodes@, self.n as int, right as int);
            if self.nodes[index].sum_p_bar == self.nodes[left].sum_p_bar + self.nodes[right].sum_p {
                let r = self.responsible_sum_p_bar(left);
                proof {
                    if let Some((id, var, p)) = r {
                        let g = choose|g: int| {
                            &&& 0 <= g < sl.len()
                            &&& #[trigger] is_gray_leaf(sl[g])
                            &&& sl[g].node_id == Some((id, var))
                            &&& p == sl[g].sum_p_bar
                            &&& sum_p_of(whiten(sl, g)) == self.nodes@[left as int].sum_p_bar
                        };
                        lemma_whiten_concat(sl, sr, g);
                        lemma_whiten_ok(sl, g);
                        lemma_concat(whiten(sl, g), sr);
                        assert((sl + sr)[g] == sl[g]);
                        assert(is_gray_leaf((sl + sr)[g]));
                    }
                    lemma_concat(sl, sr);
                    let s = self.subtree(index as int);
                    assert(s == sl + sr);
                    assert(gray_extra(sl) >= gray_extra(sr));
                    let g = choose|g: int| #[trigger] self.first_longest(left as int, g) && match r {
                        Some((id, var, p)) => is_gray_leaf(sl[g]) && sl[g].node_id == Some((id, var)) && p == sl[g].sum_p_bar,
                        None => !is_gray_leaf(sl[g]),
                    };
                    assert(s[g] == sl[g]);
                    assert forall|k: int| 0 <= k < g implies extra(#[trigger] s[k]) != gray_extra(s) by {
                        assert(s[k] == sl[k]);
                    }
                    assert(self.first_longest(index as int, g));
                }
                assert(self.spb_responsible(index as int, r));
                r
            } else if self.nodes[index].sum_p_bar == self.nodes[left].sum_p + self.nodes[right].sum_p_bar {
                let r = self.responsible_sum_p_bar(right);
                proof {
                    if let Some((id, var, p)) = r {
                        let g = choose|g: int| {
                            &&& 0 <= g < sr.len()
                            &&& #[trigger] is_gray_leaf(sr[g])
                            &&& sr[g].node_id == Some((id, var))
                            &&& p == sr[g].sum_p_bar
                            &&& sum_p_of(whiten(sr, g)) == self.nodes@[right as int].sum_p_bar
                        };
                        let g2 = sl.len() + g;
                        lemma_whiten_concat(sl, sr, g2);
                        lemma_whiten_ok(sr, g);
                        lemma_concat(sl, whiten(sr, g));
                        assert((sl + sr)[g2] == sr[g]);
                        assert(is_gray_leaf((sl + sr)[g2]));
                    }
                    lemma_concat(sl, sr);
                    let s = self.subtree(index as int);
                    assert(s == sl + sr);
                    assert(gray_extra(sl) < gray_extra(sr));
                    let g = choose|g: int| #[trigger] self.first_longest(right as int, g) && match r {
                        Some((id, var, p)) => is_gray_leaf(sr[g]) && sr[g].node_id == Some((id, var)) && p == sr[g].sum_p_bar,
                        None => !is_gray_leaf(sr[g]),
                    };
                    let g2 = sl.len() + g;
                    assert(s[g2] == sr[g]);
                    assert forall|k: int| 0 <= k < g2 implies extra(#[trigger] s[k]) != gray_extra(s) by {
                        if k < sl.len() {
                            assert(s[k] == sl[k]);
                            lemma_extra_le(sl, k);
                        } else {
                            assert(s[k] == sr[k - sl.len()]);
                        }
                    }
                    assert(self.first_longest(index as int, g2));
                }
                assert(self.spb_responsible(index as int, r));
                r
            } else {
                proof {
                    lemma_concat(sl, sr);
                }
                assert(false);
                None
            }
        }
    }

    /// A task of lambda that, added to theta, gives the completion time
    /// `nodes[index].ect_bar` below `index`, by a run of theta that contains it: its domain,
    /// start time view and duration.
    pub fn responsible_ect_bar(&self, index: usize) -> (r: Option<(DomainId, IntVar, i32)>)
        requires
            self.wf(),
            index < self.nodes@.len(),
        ensures
            self.ectb_responsible(index as int, r),
            self.names_leaf(index as int, self.ectb_pick(index as int), r),
        decreases self.nodes@.len() - index,
    {
        proof {
            self.lemma_node(index as int);
        }
        if index >= self.n {
            proof {
                assert(self.subtree(index as int)[0] == self.nodes@[index as int]);
                assert(leaf_ok(self.nodes@[index as int]));
            }
            if self.nodes[index].is_gray() {
                proof {
                    let s = subtree_leaves(self.nodes@, self.n as int, index as int);
                    assert(s[0] == self.nodes@[index as int]);
                    let w = whiten(s, 0);
                    assert(w.skip(1) =~= Seq::<Node>::empty());
                    assert(sum_p_of(w.skip(1)) == 0);
                    assert(term(w, 0) == self.nodes@[index as int].ect_bar);
                    assert(is_gray_leaf(self.subtree(index as int)[0]));
                    assert(term(whiten(self.subtree(index as int), 0), 0) == self.nodes@[index as int].ect_bar);
                }
                let r = match self.nodes[index].node_id {
                    Some((id, var)) => Some((id, var, self.nodes[index].sum_p_bar)),
                    None => None,
                };
                proof {
                    assert(leaf_ok(self.nodes@[index as int]));
                    assert(self.subtree(index as int)[0] == self.nodes@[index as int]);
                }
                assert(self.ectb_responsible(index as int, r));
                r
            } else {
                assert(leaf_ok(self.nodes@[index as int]));
                assert(self.ectb_responsible(index as int, None));
                None
            }
        } else {
            let left = self.get_left_child(index);
            let right = self.get_right_child(index);
            proof {
                self.lemma_node(left as int);
                self.lemma_node(right as int);
                assert(combined(self.nodes@, index as int));
            }
            let ghost sl = subtree_leaves(self.nodes@, self.n as int, left as int);
            let ghost sr = subtree_leaves(self.nodes@, self.n as int, right as int);
            let ghost ectb = self.nodes@[index as int].ect_bar;
            if self.nodes[index].ect_bar == self.nodes[right].ect_bar {
                let r = self.responsible_ect_bar(right);
                proof {
                    if let Some((id, var, p)) = r {
                        let (g, k) = choose|g: int, k: int| {
                            &&& 0 <= k <= g < sr.len()
                            &&& #[trigger] is_gray_leaf(sr[g])
                            &&& sr[g].node_id == Some((id, var))
                            &&& p == sr[g].sum_p_bar
                            &&& (k == g || is_white(sr[k]))
                            &&& #[trigger] term(whiten(sr, g), k) == self.nodes@[right as int].ect_bar
                        };
                        let g2 = sl.len() + g;
                        let k2 = sl.len() + k;
                        lemma_whiten_concat(sl, sr, g2);
                        lemma_whiten_ok(sr, g);
                        lemma_term_concat(sl, whiten(sr, g), k2);
                        assert((sl + sr)[g2] == sr[g]);
                        assert((sl + sr)[k2] == sr[k]);
                        assert(is_gray_leaf((sl + sr)[g2]));
                        assert(term(whiten(sl + sr, g2), k2) == ectb);
                    }
                    if let Some(g) = self.ectb_pick(right as int) {
                        assert((sl + sr)[sl.len() + g] == sr[g]);
                    }
                }
                assert(self.ectb_responsible(index as int, r));
                r
            } else if self.nodes[index].ect_bar == self.nodes[left].ect + self.nodes[right].sum_p_bar {
                let r = self.responsible_sum_p_bar(right);
                proof {
                    self.lemma_spb_pick(right as int, r);
                    if let Some(g) = self.spb_pick(right as int) {
                        assert((sl + sr)[sl.len() + g] == sr[g]);
                    }
                    if let Some((id, var, p)) = r {
                        let g = choose|g: int| {
                            &&& 0 <= g < sr.len()
                            &&& #[trigger] is_gray_leaf(sr[g])
                            &&& sr[g].node_id == Some((id, var))
                            &&& p == sr[g].sum_p_bar
                            &&& sum_p_of(whiten(sr, g)) == self.nodes@[right as int].sum_p_bar
                        };
                        if !has_white(sl) {
                            lemma_no_white(sl);
                            assert(false);
                        }
                        lemma_ect_attained(sl);
                        let k = choose|k: int| 0 <= k < sl.len() && is_white(sl[k]) && #[trigger] term(sl, k) == ect_of(sl);
                        let g2 = sl.len() + g;
                        lemma_whiten_concat(sl, sr, g2);
                        lemma_whiten_ok(sr, g);
                        lemma_term_concat(sl, whiten(sr, g), k);
                        assert((sl + sr)[g2] == sr[g]);
                        assert((sl + sr)[k] == sl[k]);
                        assert(is_gray_leaf((sl + sr)[g2]));
                        assert(term(whiten(sl + sr, g2), k) == ectb);
                    }
                }
                assert(self.ectb_responsible(index as int, r));
                r
            } else if self.nodes[index].ect_bar == self.nodes[left].ect_bar + self.nodes[right].sum_p {
                let r = self.responsible_ect_bar(left);
                proof {
                    if let Some((id, var, p)) = r {
                        let (g, k) = choose|g: int, k: int| {
                            &&& 0 <= k <= g < sl.len()
                            &&& #[trigger] is_gray_leaf(sl[g])
                            &&& sl[g].node_id == Some((id, var))
                            &&& p == sl[g].sum_p_bar
                            &&& (k == g || is_white(sl[k]))
                            &&& #[trigger] term(whiten(sl, g), k) == self.nodes@[left as int].ect_bar
                        };
                        lemma_whiten_concat(sl, sr, g);
                        lemma_whiten_ok(sl, g);
                        lemma_term_concat(whiten(sl, g), sr, k);
                        assert((sl + sr)[g] == sl[g]);
                        assert((sl + sr)[k] == sl[k]);
                        assert(is_gray_leaf((sl + sr)[g]));
                        assert(term(whiten(sl + sr, g), k) == ectb);
                    }
                    if let Some(g) = self.ectb_pick(left as int) {
                        assert((sl + sr)[g] == sl[g]);
                    }
                }
                assert(self.ectb_responsible(index as int, r));
                r
            } else {
                assert(self.ectb_responsible(index as int, None));
                None
            }
        }
    }

    /// The earliest start time of the task in the first leaf.
    pub fn est(&self, assignments: &Assignments) -> (r: i32)
        requires
            self.wf(),
            assignments.wf(),
            self.nodes@[self.n as int].node_id is Some,
            self.nodes@[self.n as int].node_id.unwrap().1.valid(assignments),
        ensures
            r == self.nodes@[self.n as int].node_id.unwrap().1.view_lb(assignments),
    {
        match self.nodes[self.n].node_id {
            Some((_, var)) => assignments.lower_bound(var),
            None => 0,
        }
    }

    /// Every leaf that held a task: its start time view, its duration in theta, and
    /// whether it is in theta.
    pub fn get_all_nodes(&self) -> (r: Vec<(IntVar, i32, bool)>)
        requires
            self.wf(),
        ensures
            r@ == node_entries(self.leaves()),
            r@.len() == held_count(self.leaves()),
            forall|q: int|
                0 <= q < self.leaves().len() && (#[trigger] self.leaves()[q]).node_id is Some ==> r@[held_count(
                    self.leaves().take(q),
                )] == (self.leaves()[q].node_id.unwrap().1, self.leaves()[q].sum_p, is_white(self.leaves()[q])),
    {
        proof {
            self.lemma_root();
            lemma_node_entries_listing(self.leaves());
        }
        let mut nodes: Vec<(IntVar, i32, bool)> = Vec::new();
        let mut i = self.n;
        while i < self.nodes.len()
            invariant
                self.wf(),
                self.n <= i <= self.nodes@.len(),
                nodes@ == node_entries(self.leaves().take(i - self.n)),
            decreases self.nodes@.len() - i,
        {
            proof {
                lemma_entries_take(self.leaves(), i - self.n);
                assert(self.leaves()[i - self.n] == self.nodes@[i as int]);
                assert(leaf_ok(self.nodes@[i as int]));
            }
            if self.nodes[i].ect != i32::MIN {
                match self.nodes[i].node_id {
                    Some((_, var)) => nodes.push((var, self.nodes[i].sum_p, true)),
                    None => {},
                }
            } else {
                match self.nodes[i].node_id {
                    Some(id) => nodes.push((id.1, self.nodes[i].sum_p, false)),
                    None => {},
                }
            }
            i = i + 1;
        }
        proof {
            assert(self.leaves().take(self.nodes@.len() - self.n) =~= self.leaves());
        }
        nodes
    }

    /// The tasks of theta, left to right: start time view, duration, and `true`.
    pub fn get_all_theta(&self) -> (r: Vec<(IntVar, i32, bool)>)
        requires
            self.wf(),
        ensures
            r@ == theta_entries(self.leaves()),
            r@.len() == white_count(self.leaves()),
            forall|q: int|
                0 <= q < self.leaves().len() && is_white(#[trigger] self.leaves()[q]) ==> r@[white_count(
                    self.leaves().take(q),
                )] == (self.leaves()[q].node_id.unwrap().1, self.leaves()[q].sum_p, true),
    {
        proof {
            self.lemma_root();
            lemma_white_listing(self.leaves());
        }
        let mut theta_ids: Vec<(IntVar, i32, bool)> = Vec::new();
        let mut i = self.n;
        while i < self.nodes.len()
            invariant
                self.wf(),
                self.n <= i <= self.nodes@.len(),
                theta_ids@ == theta_entries(self.leaves().take(i - self.n)),
            decreases self.nodes@.len() - i,
        {
            proof {
                lemma_entries_take(self.leaves(), i - self.n);
                assert(self.leaves()[i - self.n] == self.nodes@[i as int]);
                assert(leaf_ok(self.nodes@[i as int]));
            }
            let index = i;
            if self.nodes[index].ect != i32::MIN {
                match self.nodes[index].node_id {
                    Some((_, var)) => theta_ids.push((var, self.nodes[index].sum_p, true)),
                    None => {},
                }
            }
            i = i + 1;
        }
        proof {
            assert(self.leaves().take(self.nodes@.len() - self.n) =~= self.leaves());
        }
        theta_ids
    }

    /// The tasks of theta below `index`, left to right: start time view and duration.
    pub fn get_all_leaves(&self, index: usize) -> (r: Vec<(IntVar, i32)>)
        requires
            self.wf(),
            index < self.nodes@.len(),
        ensures
            r@ == white_pairs(self.subtree(index as int)),
            r@.len() == white_count(self.subtree(index as int)),
            forall|q: int|
                0 <= q < self.subtree(index as int).len() && is_white(#[trigger] self.subtree(index as int)[q]) ==> r@[white_count(
                    self.subtree(index as int).take(q),
                )] == (self.subtree(index as int)[q].node_id.unwrap().1, self.subtree(index as int)[q].sum_p),
        decreases self.nodes@.len() - index,
    {
        proof {
            self.lemma_node(index as int);
            lemma_entries_single(self.nodes@[index as int]);
            lemma_white_listing(self.subtree(index as int));
        }
        if index >= self.n {
            proof {
                assert(leaf_ok(self.nodes@[index as int]));
            }
            if self.nodes[index].ect == i32::MIN {
                return Vec::new();
            }
            let mut r: Vec<(IntVar, i32)> = Vec::new();
            match self.nodes[index].node_id {
                Some((_, var)) => r.push((var, self.nodes[index].sum_p)),
                None => {},
            }
            return r;
        }
        let left = self.get_left_child(index);
        let right = self.get_right_child(index);
        let mut left_leaves = self.get_all_leaves(left);
        let mut right_leaves = self.get_all_leaves(right);
        left_leaves.append(&mut right_leaves);
        proof {
            lemma_theta_entries_concat(self.subtree(left as int), self.subtree(right as int));
        }
        left_leaves
    }

    /// `r` lists the tasks of the run of theta below `index` that gives its completion
    /// time: the white leaves from the first white leaf `q` whose run does, with their total
    /// duration; with no task of theta below `index`, nothing.
    pub open spec fn omegas_of(&self, index: int, r: (Vec<(IntVar, i32)>, i32)) -> bool {
        exists|q: int|
            {
                &&& 0 <= q <= self.subtree(index).len()
                &&& r.0@ == white_pairs(#[trigger] self.subtree(index).skip(q))
                &&& r.1 == sum_p_of(self.subtree(index).skip(q))
                &&& has_white(self.subtree(index)) ==> q < self.subtree(index).len() && is_white(
                    self.subtree(index)[q],
                ) && term(self.subtree(index), q) == self.nodes@[index].ect
                &&& !has_white(self.subtree(index)) ==> q == self.subtree(index).len()
                &&& forall|k: int|
                    0 <= k < q && is_white(#[trigger] self.subtree(index)[k]) ==> term(self.subtree(index), k)
                        != self.nodes@[index].ect
            }
    }

    /// The run of theta below `index` that gives its earliest completion time, with its
    /// total duration.
    pub fn get_all_omegas(&self, index: usize) -> (r: (Vec<(IntVar, i32)>, i32))
        requires
            self.wf(),
            index < self.nodes@.len(),
        ensures
            self.omegas_of(index as int, r),
        decreases self.nodes@.len() - index,
    {
        proof {
            self.lemma_node(index as int);
            lemma_entries_single(self.nodes@[index as int]);
        }
        if index >= self.n {
            let ghost s = self.subtree(index as int);
            proof {
                assert(leaf_ok(self.nodes@[index as int]));
                assert(s[0] == self.nodes@[index as int]);
                assert(s.skip(0) =~= s);
                assert(s.skip(1) =~= Seq::<Node>::empty());
                assert(white_pairs(s.skip(1)) =~= Seq::empty());
                assert(sum_p_of(s.skip(1)) == 0);
            }
            if self.nodes[index].ect == i32::MIN {
                let r = (Vec::new(), 0);
                proof {
                    assert(!has_white(s));
                    assert(r.0@ =~= white_pairs(s.skip(1)));
                    assert(self.omegas_of(index as int, r));
                }
                return r;
            }
            let mut v: Vec<(IntVar, i32)> = Vec::new();
            match self.nodes[index].node_id {
                Some((_, var)) => v.push((var, self.nodes[index].sum_p)),
                None => {},
            }
            let r = (v, self.nodes[index].sum_p);
            proof {
                assert(is_white(s[0]));
                assert(has_white(s));
                assert(sum_p_of(s) == self.nodes@[index as int].sum_p);
                assert(self.omegas_of(index as int, r));
            }
            return r;
        }
        let left = self.get_left_child(index);
        let right = self.get_right_child(index);
        let ghost sl = self.subtree(left as int);
        let ghost sr = self.subtree(right as int);
        let ghost s = self.subtree(index as int);
        proof {
            self.lemma_node(left as int);
            self.lemma_node(right as int);
            assert(combined(self.nodes@, index as int));
            lemma_summary_bounds(sl);
            lemma_summary_bounds(sr);
            if has_white(sr) {
                lemma_ect_with_white(sr);
            } else {
                lemma_no_white(sr);
            }
            if has_white(sl) {
                lemma_ect_with_white(sl);
            } else {
                lemma_no_white(sl);
            }
        }
        if self.nodes[left].ect + self.nodes[right].sum_p == self.nodes[index].ect {
            let (mut left_omegas, sp) = self.get_all_omegas(left);
            let ghost q = choose|q: int|
                {
                    &&& 0 <= q <= sl.len()
                    &&& left_omegas@ == white_pairs(#[trigger] sl.skip(q))
                    &&& sp == sum_p_of(sl.skip(q))
                    &&& has_white(sl) ==> q < sl.len() && is_white(sl[q]) && term(sl, q)
                        == self.nodes@[left as int].ect
                    &&& !has_white(sl) ==> q == sl.len()
                    &&& forall|k: int|
                        0 <= k < q && is_white(#[trigger] sl[k]) ==> term(sl, k) != self.nodes@[left as int].ect
                };
            proof {
                lemma_sum_p_split(sl, q);
            }
            let mut right_leaves = self.get_all_leaves(right);
            let ghost lo = left_omegas@;
            left_omegas.append(&mut right_leaves);
            let r = (left_omegas, sp + self.nodes[right].sum_p);
            proof {
                assert(s.skip(q) =~= sl.skip(q) + sr);
                lemma_theta_entries_concat(sl.skip(q), sr);
                lemma_leaf_ok_subrange(sl, q, sl.len() as int);
                assert(sl.skip(q) =~= sl.subrange(q, sl.len() as int));
                lemma_concat(sl.skip(q), sr);
                if has_white(sl) {
                    lemma_term_concat(sl, sr, q);
                    assert(s[q] == sl[q]);
                    assert(has_white(s));
                    assert forall|k: int| 0 <= k < q && is_white(#[trigger] s[k]) implies term(s, k) != self.nodes@[index as int].ect by {
                        assert(s[k] == sl[k]);
                        lemma_term_concat(sl, sr, k);
                    }
                    assert(self.omegas_of(index as int, r));
                } else {
                    assert(!has_white(sr));
                    assert(!has_white(s)) by {
                        if has_white(s) {
                            let k = choose|k: int| 0 <= k < s.len() && #[trigger] is_white(s[k]);
                            if k < sl.len() {
                                assert(s[k] == sl[k]);
                            } else {
                                assert(s[k] == sr[k - sl.len()]);
                            }
                        }
                    }
                    lemma_no_white_pairs(sr);
                    assert(sl.skip(q) =~= Seq::<Node>::empty());
                    assert(s.skip(s.len() as int) =~= Seq::<Node>::empty());
                    assert(white_pairs(sl.skip(q)) =~= Seq::empty());
                    assert(white_pairs(s.skip(s.len() as int)) =~= Seq::empty());
                    assert(r.0@ =~= white_pairs(s.skip(s.len() as int)));
                    assert forall|k: int| 0 <= k < s.len() && is_white(#[trigger] s[k]) implies term(s, k) != self.nodes@[index as int].ect by {}
                    assert(self.omegas_of(index as int, r));
                }
            }
            r
        } else {
            let r = self.get_all_omegas(right);
            proof {
                let q = choose|q: int|
                    {
                        &&& 0 <= q <= sr.len()
                        &&& r.0@ == white_pairs(#[trigger] sr.skip(q))
                        &&& r.1 == sum_p_of(sr.skip(q))
                        &&& has_white(sr) ==> q < sr.len() && is_white(sr[q]) && term(sr, q)
                            == self.nodes@[right as int].ect
                        &&& !has_white(sr) ==> q == sr.len()
                        &&& forall|k: int|
                            0 <= k < q && is_white(#[trigger] sr[k]) ==> term(sr, k) != self.nodes@[right as int].ect
                    };
                let q2 = sl.len() + q;
                assert(s.skip(q2) =~= sr.skip(q));
                assert(has_white(sr));
                lemma_term_concat(sl, sr, q2);
                assert(s[q2] == sr[q]);
                assert forall|k: int| 0 <= k < q2 && is_white(#[trigger] s[k]) implies term(s, k) != self.nodes@[index as int].ect by {
                    lemma_term_concat(sl, sr, k);
                    if k < sl.len() {
                        assert(s[k] == sl[k]);
                        crate::tree_spec::lemma_term_le_ect(sl, k);
                    } else {
                        assert(s[k] == sr[k - sl.len()]);
                    }
                }
                assert(self.omegas_of(index as int, r));
            }
            r
        }
    }

    /// Earliest completion time of theta.
    pub fn ect(&self) -> (r: i32)
        requires
            self.wf(),
        ensures
            r == ect_of(self.leaves()),
    {
        proof {
            self.lemma_root();
        }
        self.nodes[0].ect
    }

    /// Earliest completion time of theta with at most one task of lambda.
    pub fn ect_bar(&self) -> (r: i32)
        requires
            self.wf(),
        ensures
            r == ect_bar_of(self.leaves()),
    {
        proof {
            self.lemma_root();
        }
        self.nodes[0].ect_bar
    }

    /// Total duration of theta.
    pub fn sum_p(&self) -> (r: i32)
        requires
            self.wf(),
        ensures
            r == sum_p_of(self.leaves()),
    {
        proof {
            self.lemma_root();
        }
        self.nodes[0].sum_p
    }

    /// Total duration of theta with at most one task of lambda.
    pub fn sum_p_bar(&self) -> (r: i32)
        requires
            self.wf(),
        ensures
            r == sum_p_bar_of(self.leaves()),
    {
        proof {
            self.lemma_root();
        }
        self.nodes[0].sum_p_bar
    }
}

pub proof fn lemma_sum_selected_prefix(w: Seq<int>, o: Seq<usize>, i: int)
    requires
        0 <= i < o.len(),
    ensures
        sum_selected(w, o.take(i + 1)) == sum_selected(w, o.take(i)) + w[o[i] as int],
{
    assert(o.take(i + 1).drop_last() =~= o.take(i));
}

/// The theta list of leaves split at `q` is that of the two parts.
pub proof fn lemma_entries_split(s: Seq<Node>, q: int)
    requires
        0 <= q <= s.len(),
    ensures
        theta_entries(s) == theta_entries(s.take(q)) + theta_entries(s.skip(q)),
{
    assert(s =~= s.take(q) + s.skip(q));
    lemma_theta_entries_concat(s.take(q), s.skip(q));
}

/// Changing one leaf changes the total duration by the difference of its durations.
pub proof fn lemma_total_update(s: Seq<Node>, j: int, x: Node)
    requires
        0 <= j < s.len(),
    ensures
        total_p(s.update(j, x)) == total_p(s) - s[j].sum_p_bar + x.sum_p_bar,
    decreases s.len(),
{
    if j > 0 {
        assert(s.update(j, x).drop_first() =~= s.drop_first().update(j - 1, x));
        lemma_total_update(s.drop_first(), j - 1, x);
    } else {
        assert(s.update(j, x).drop_first() =~= s.drop_first());
    }
}

} // verus!
