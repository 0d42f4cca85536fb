//! Leaf-level meaning of a theta-lambda tree. A tree summarises a sequence of leaves,
//! each white (in theta), gray (in lambda) or empty; the functions here say what the
//! summary of a leaf sequence is, and the lemmas show how summaries of two adjacent
//! sequences combine.
use vstd::prelude::*;
use crate::engine::IntVar;
use crate::theta_lambda_trees::Node;

verus! {

/// Largest magnitude of an earliest start time in a tree, and largest total duration.
pub const TREE_LIMIT: i32 = 268435456;

pub open spec fn max2(a: int, b: int) -> int {
    if a >= b {
        a
    } else {
        b
    }
}

/// A leaf that holds no task (never used, or removed from lambda).
pub open spec fn is_empty_leaf(x: Node) -> bool {
    &&& x.ect == i32::MIN
    &&& x.sum_p == 0
    &&& x.ect_bar == i32::MIN
    &&& x.sum_p_bar == 0
}

/// A leaf whose task is in theta.
pub open spec fn is_white(x: Node) -> bool {
    &&& !is_empty_leaf(x)
    &&& x.ect == x.ect_bar
    &&& x.sum_p == x.sum_p_bar
}

/// A leaf whose task is in lambda.
pub open spec fn is_gray_leaf(x: Node) -> bool {
    &&& !is_empty_leaf(x)
    &&& x.ect == i32::MIN
    &&& x.sum_p == 0
}

/// The earliest start time of the task held by a non-empty leaf.
pub open spec fn est(x: Node) -> int {
    x.ect_bar - x.sum_p_bar
}

/// A leaf is empty, or holds a task (the domain of its start time view, and the view) with
/// a duration and an earliest start within `TREE_LIMIT`, white or gray.
pub open spec fn leaf_ok(x: Node) -> bool {
    ||| is_empty_leaf(x)
    ||| {
        &&& x.node_id is Some
        &&& x.node_id.unwrap().0 == x.node_id.unwrap().1.domain
        &&& 0 <= x.sum_p_bar <= TREE_LIMIT
        &&& -TREE_LIMIT <= est(x) <= TREE_LIMIT
        &&& ((x.ect == x.ect_bar && x.sum_p == x.sum_p_bar) || (x.ect == i32::MIN && x.sum_p
            == 0))
    }
}

pub open spec fn all_leaf_ok(s: Seq<Node>) -> bool {
    forall|k: int| 0 <= k < s.len() ==> #[trigger] leaf_ok(s[k])
}

/// Total duration of the white leaves.
pub open spec fn sum_p_of(s: Seq<Node>) -> int
    decreases s.len(),
{
    if s.len() == 0 {
        0
    } else {
        s[0].sum_p + sum_p_of(s.drop_first())
    }
}

/// Largest duration of a gray leaf, or zero.
pub open spec fn gray_extra(s: Seq<Node>) -> int
    decreases s.len(),
{
    if s.len() == 0 {
        0
    } else {
        max2(s[0].sum_p_bar - s[0].sum_p, gray_extra(s.drop_first()))
    }
}

/// Total duration of theta with at most one task of lambda added.
pub open spec fn sum_p_bar_of(s: Seq<Node>) -> int {
    sum_p_of(s) + gray_extra(s)
}

/// Total duration of all non-empty leaves.
pub open spec fn total_p(s: Seq<Node>) -> int
    decreases s.len(),
{
    if s.len() == 0 {
        0
    } else {
        s[0].sum_p_bar + total_p(s.drop_first())
    }
}

/// Earliest completion time of theta: the largest, over the white leaves `k`, of the
/// completion time of `k` plus the durations of the white leaves after `k`
/// (`i32::MIN` when theta is empty).
pub open spec fn ect_of(s: Seq<Node>) -> int
    decreases s.len(),
{
    if s.len() == 0 {
        i32::MIN as int
    } else {
        max2(ect_of(s.drop_first()), s[0].ect + sum_p_of(s.drop_first()))
    }
}

/// Earliest completion time of theta with at most one task of lambda added.
pub open spec fn ect_bar_of(s: Seq<Node>) -> int
    decreases s.len(),
{
    if s.len() == 0 {
        i32::MIN as int
    } else {
        max2(
            ect_bar_of(s.drop_first()),
            max2(s[0].ect + sum_p_bar_of(s.drop_first()), s[0].ect_bar + sum_p_of(s.drop_first())),
        )
    }
}

/// The summary that a tree node holds for the leaves below it.
pub open spec fn summarises(x: Node, s: Seq<Node>) -> bool {
    &&& x.ect == ect_of(s)
    &&& x.sum_p == sum_p_of(s)
    &&& x.ect_bar == ect_bar_of(s)
    &&& x.sum_p_bar == sum_p_bar_of(s)
}

pub proof fn lemma_leaf_ok_subrange(s: Seq<Node>, a: int, b: int)
    requires
        all_leaf_ok(s),
        0 <= a <= b <= s.len(),
    ensures
        all_leaf_ok(s.subrange(a, b)),
{
    assert forall|k: int| 0 <= k < s.subrange(a, b).len() implies #[trigger] leaf_ok(
        s.subrange(a, b)[k],
    ) by {
        assert(s.subrange(a, b)[k] == s[a + k]);
    }
}

/// Lower and upper bounds of the summaries of valid leaves.
pub proof fn lemma_summary_bounds(s: Seq<Node>)
    requires
        all_leaf_ok(s),
    ensures
        0 <= sum_p_of(s) <= sum_p_bar_of(s) <= total_p(s),
        0 <= gray_extra(s),
        i32::MIN + sum_p_of(s) <= ect_of(s) <= TREE_LIMIT + sum_p_of(s),
        i32::MIN + sum_p_bar_of(s) <= ect_bar_of(s) <= TREE_LIMIT + sum_p_bar_of(s),
        ect_of(s) <= ect_bar_of(s),
    decreases s.len(),
{
    if s.len() > 0 {
        let r = s.drop_first();
        assert(leaf_ok(s[0]));
        assert(all_leaf_ok(r)) by {
            assert forall|k: int| 0 <= k < r.len() implies #[trigger] leaf_ok(r[k]) by {
                assert(r[k] == s[k + 1]);
            }
        }
        lemma_summary_bounds(r);
    }
}

pub proof fn lemma_all_ok_concat(l: Seq<Node>, r: Seq<Node>)
    requires
        all_leaf_ok(l),
        all_leaf_ok(r),
    ensures
        all_leaf_ok(l + r),
{
    assert forall|k: int| 0 <= k < (l + r).len() implies #[trigger] leaf_ok((l + r)[k]) by {
        if k < l.len() {
            assert((l + r)[k] == l[k]);
        } else {
            assert((l + r)[k] == r[k - l.len()]);
        }
    }
}

/// How the summaries of two adjacent leaf sequences combine: this is what a tree node
/// computes from its two children.
pub proof fn lemma_concat(l: Seq<Node>, r: Seq<Node>)
    requires
        all_leaf_ok(l),
        all_leaf_ok(r),
    ensures
        sum_p_of(l + r) == sum_p_of(l) + sum_p_of(r),
        gray_extra(l + r) == max2(gray_extra(l), gray_extra(r)),
        sum_p_bar_of(l + r) == max2(sum_p_bar_of(l) + sum_p_of(r), sum_p_of(l) + sum_p_bar_of(r)),
        total_p(l + r) == total_p(l) + total_p(r),
        ect_of(l + r) == max2(ect_of(r), ect_of(l) + sum_p_of(r)),
        ect_bar_of(l + r) == max2(
            ect_bar_of(r),
            max2(ect_of(l) + sum_p_bar_of(r), ect_bar_of(l) + sum_p_of(r)),
        ),
    decreases l.len(),
{
    lemma_summary_bounds(r);
    lemma_summary_bounds(l);
    if l.len() == 0 {
        assert(l + r =~= r);
    } else {
        let l1 = l.drop_first();
        assert((l + r).drop_first() =~= l1 + r);
        assert((l + r)[0] == l[0]);
        assert(all_leaf_ok(l1)) by {
            assert forall|k: int| 0 <= k < l1.len() implies #[trigger] leaf_ok(l1[k]) by {
                assert(l1[k] == l[k + 1]);
            }
        }
        assert(leaf_ok(l[0]));
        lemma_concat(l1, r);
        lemma_summary_bounds(l1);
    }
}

/// A single leaf summarises itself.
pub proof fn lemma_singleton(x: Node)
    requires
        leaf_ok(x),
    ensures
        summarises(x, seq![x]),
        total_p(seq![x]) == x.sum_p_bar,
{
    let s = seq![x];
    let e = s.drop_first();
    assert(e =~= Seq::<Node>::empty());
    assert(s[0] == x);
    assert(sum_p_of(e) == 0);
    assert(gray_extra(e) == 0);
    assert(total_p(e) == 0);
    assert(ect_of(e) == i32::MIN);
    assert(ect_bar_of(e) == i32::MIN);
    assert(sum_p_of(s) == x.sum_p);
    assert(gray_extra(s) == x.sum_p_bar - x.sum_p);
}

/// The leaf `x` with its task of lambda put into theta.
pub open spec fn whitened(x: Node) -> Node {
    Node { ect: x.ect_bar, sum_p: x.sum_p_bar, ..x }
}

/// The leaves `s` with the task of leaf `g` put into theta.
pub open spec fn whiten(s: Seq<Node>, g: int) -> Seq<Node> {
    s.update(g, whitened(s[g]))
}

/// Completion time of the run of theta that starts at leaf `k`.
pub open spec fn term(s: Seq<Node>, k: int) -> int {
    s[k].ect + sum_p_of(s.skip(k + 1))
}

pub open spec fn has_white(s: Seq<Node>) -> bool {
    exists|k: int| 0 <= k < s.len() && #[trigger] is_white(s[k])
}

pub proof fn lemma_whitened_ok(x: Node)
    requires
        leaf_ok(x),
        is_gray_leaf(x),
    ensures
        leaf_ok(whitened(x)),
        is_white(whitened(x)),
        est(whitened(x)) == est(x),
{
}

pub proof fn lemma_whiten_ok(s: Seq<Node>, g: int)
    requires
        all_leaf_ok(s),
        0 <= g < s.len(),
        is_gray_leaf(s[g]),
    ensures
        all_leaf_ok(whiten(s, g)),
{
    lemma_whitened_ok(s[g]);
    assert forall|k: int| 0 <= k < whiten(s, g).len() implies #[trigger] leaf_ok(whiten(s, g)[k]) by {
        if k != g {
            assert(whiten(s, g)[k] == s[k]);
        }
    }
}

pub proof fn lemma_whiten_concat(l: Seq<Node>, r: Seq<Node>, g: int)
    requires
        0 <= g < l.len() + r.len(),
    ensures
        g < l.len() ==> whiten(l + r, g) == whiten(l, g) + r,
        g >= l.len() ==> whiten(l + r, g) == l + whiten(r, g - l.len()),
{
    if g < l.len() {
        assert(whiten(l + r, g) =~= whiten(l, g) + r);
    } else {
        assert(whiten(l + r, g) =~= l + whiten(r, g - l.len()));
    }
}

pub proof fn lemma_term_concat(l: Seq<Node>, r: Seq<Node>, k: int)
    requires
        0 <= k < l.len() + r.len(),
        all_leaf_ok(l),
        all_leaf_ok(r),
    ensures
        k < l.len() ==> term(l + r, k) == term(l, k) + sum_p_of(r),
        k >= l.len() ==> term(l + r, k) == term(r, k - l.len()),
{
    if k < l.len() {
        assert((l + r).skip(k + 1) =~= l.skip(k + 1) + r);
        lemma_leaf_ok_subrange(l, k + 1, l.len() as int);
        assert(l.skip(k + 1) =~= l.subrange(k + 1, l.len() as int));
        lemma_concat(l.skip(k + 1), r);
    } else {
        assert((l + r).skip(k + 1) =~= r.skip(k - l.len() + 1));
    }
}

/// Without a white leaf, theta is empty: no duration and no completion time.
pub proof fn lemma_no_white(s: Seq<Node>)
    requires
        all_leaf_ok(s),
        !has_white(s),
    ensures
        ect_of(s) == i32::MIN,
        sum_p_of(s) == 0,
    decreases s.len(),
{
    if s.len() > 0 {
        let r = s.drop_first();
        assert(leaf_ok(s[0]));
        assert(!is_white(s[0]));
        assert(all_leaf_ok(r)) by {
            assert forall|k: int| 0 <= k < r.len() implies #[trigger] leaf_ok(r[k]) by {
                assert(r[k] == s[k + 1]);
            }
        }
        assert(!has_white(r)) by {
            if has_white(r) {
                let k = choose|k: int| 0 <= k < r.len() && #[trigger] is_white(r[k]);
                assert(r[k] == s[k + 1]);
            }
        }
        lemma_no_white(r);
    }
}

/// The earliest completion time of a non-empty theta is that of the run from some white
/// leaf.
pub proof fn lemma_ect_attained(s: Seq<Node>)
    requires
        all_leaf_ok(s),
        has_white(s),
    ensures
        exists|k: int| 0 <= k < s.len() && is_white(s[k]) && #[trigger] term(s, k) == ect_of(s),
    decreases s.len(),
{
    let r = s.drop_first();
    assert(leaf_ok(s[0]));
    assert(all_leaf_ok(r)) by {
        assert forall|k: int| 0 <= k < r.len() implies #[trigger] leaf_ok(r[k]) by {
            assert(r[k] == s[k + 1]);
        }
    }
    lemma_summary_bounds(r);
    assert(s.skip(1) =~= r);
    if is_white(s[0]) && s[0].ect + sum_p_of(r) >= ect_of(r) {
        assert(term(s, 0) == ect_of(s));
    } else {
        if !has_white(r) {
            lemma_no_white(r);
            let k = choose|k: int| 0 <= k < s.len() && #[trigger] is_white(s[k]);
            if k > 0 {
                assert(r[k - 1] == s[k]);
            }
            assert(false);
        }
        lemma_ect_attained(r);
        let k = choose|k: int| 0 <= k < r.len() && is_white(r[k]) && #[trigger] term(r, k) == ect_of(r);
        assert(s.skip(k + 2) =~= r.skip(k + 1));
        assert(s[k + 1] == r[k]);
        assert(term(s, k + 1) == ect_of(s));
    }
}

/// A non-empty theta completes no earlier than `-TREE_LIMIT` plus its total duration.
pub proof fn lemma_ect_with_white(s: Seq<Node>)
    requires
        all_leaf_ok(s),
        has_white(s),
    ensures
        ect_of(s) >= -TREE_LIMIT + sum_p_of(s),
    decreases s.len(),
{
    let r = s.drop_first();
    assert(leaf_ok(s[0]));
    assert(all_leaf_ok(r)) by {
        assert forall|k: int| 0 <= k < r.len() implies #[trigger] leaf_ok(r[k]) by {
            assert(r[k] == s[k + 1]);
        }
    }
    lemma_summary_bounds(r);
    if !is_white(s[0]) {
        let k = choose|k: int| 0 <= k < s.len() && #[trigger] is_white(s[k]);
        assert(r[k - 1] == s[k]);
        assert(has_white(r));
        lemma_ect_with_white(r);
    }
}

/// Theta's completion time and duration grow with the leaves' completion times and
/// durations.
pub proof fn lemma_ect_monotone(s1: Seq<Node>, s2: Seq<Node>)
    requires
        s1.len() == s2.len(),
        forall|q: int| 0 <= q < s1.len() ==> #[trigger] s1[q].ect <= s2[q].ect && s1[q].sum_p <= s2[q].sum_p,
    ensures
        ect_of(s1) <= ect_of(s2),
        sum_p_of(s1) <= sum_p_of(s2),
    decreases s1.len(),
{
    if s1.len() > 0 {
        let r1 = s1.drop_first();
        let r2 = s2.drop_first();
        assert forall|q: int| 0 <= q < r1.len() implies #[trigger] r1[q].ect <= r2[q].ect && r1[q].sum_p <= r2[q].sum_p by {
            assert(r1[q] == s1[q + 1] && r2[q] == s2[q + 1]);
        }
        lemma_ect_monotone(r1, r2);
        assert(s1[0].ect <= s2[0].ect);
    }
}

/// Theta's completion time and duration depend only on the leaves' completion times and
/// durations; its list, also on the views of the white leaves.
pub proof fn lemma_same_theta(s1: Seq<Node>, s2: Seq<Node>)
    requires
        s1.len() == s2.len(),
        forall|q: int| 0 <= q < s1.len() ==> #[trigger] s1[q].ect == s2[q].ect && s1[q].sum_p == s2[q].sum_p,
    ensures
        ect_of(s1) == ect_of(s2),
        sum_p_of(s1) == sum_p_of(s2),
        (forall|q: int| 0 <= q < s1.len() && #[trigger] s1[q].ect != i32::MIN ==> s1[q].node_id == s2[q].node_id)
            ==> theta_entries(s1) == theta_entries(s2),
    decreases s1.len(),
{
    lemma_ect_monotone(s1, s2);
    lemma_ect_monotone(s2, s1);
    if s1.len() > 0 {
        let r1 = s1.drop_first();
        let r2 = s2.drop_first();
        assert forall|q: int| 0 <= q < r1.len() implies #[trigger] r1[q].ect == r2[q].ect && r1[q].sum_p == r2[q].sum_p by {
            assert(r1[q] == s1[q + 1] && r2[q] == s2[q + 1]);
        }
        lemma_same_theta(r1, r2);
        if forall|q: int| 0 <= q < s1.len() && #[trigger] s1[q].ect != i32::MIN ==> s1[q].node_id == s2[q].node_id {
            assert forall|q: int| 0 <= q < r1.len() && #[trigger] r1[q].ect != i32::MIN implies r1[q].node_id == r2[q].node_id by {
                assert(r1[q] == s1[q + 1] && r2[q] == s2[q + 1]);
            }
            assert(s1[0].ect == s2[0].ect);
            if s1[0].ect != i32::MIN {
                assert(s1[0].node_id == s2[0].node_id);
            }
            assert(theta_entry(s1[0]) == theta_entry(s2[0]));
        }
    } else {
        assert(theta_entries(s1) =~= theta_entries(s2));
    }
}

/// Changing one leaf changes theta's duration by the difference of its durations.
pub proof fn lemma_sum_p_update(s: Seq<Node>, j: int, x: Node)
    requires
        0 <= j < s.len(),
    ensures
        sum_p_of(s.update(j, x)) == sum_p_of(s) - s[j].sum_p + x.sum_p,
    decreases s.len(),
{
    if j > 0 {
        assert(s.update(j, x).drop_first() =~= s.drop_first().update(j - 1, x));
        lemma_sum_p_update(s.drop_first(), j - 1, x);
    } else {
        assert(s.update(j, x).drop_first() =~= s.drop_first());
    }
}

/// Putting one task of lambda into theta completes no later than theta with at most one
/// task of lambda.
pub proof fn lemma_whiten_le_ect_bar(s: Seq<Node>, g: int)
    requires
        all_leaf_ok(s),
        0 <= g < s.len(),
    ensures
        ect_of(whiten(s, g)) <= ect_bar_of(s),
        sum_p_of(whiten(s, g)) <= sum_p_bar_of(s),
    decreases s.len(),
{
    let r = s.drop_first();
    let w = whiten(s, g);
    assert(leaf_ok(s[0]));
    assert(all_leaf_ok(r)) by {
        assert forall|k: int| 0 <= k < r.len() implies #[trigger] leaf_ok(r[k]) by {
            assert(r[k] == s[k + 1]);
        }
    }
    lemma_summary_bounds(r);
    if g == 0 {
        assert(w.drop_first() =~= r);
    } else {
        assert(w.drop_first() =~= whiten(r, g - 1));
        assert(w[0] == s[0]);
        lemma_whiten_le_ect_bar(r, g - 1);
    }
}

/// How much longer a leaf's task would make theta: its duration for a gray leaf, zero
/// otherwise.
pub open spec fn extra(x: Node) -> int {
    x.sum_p_bar - x.sum_p
}

/// The largest duration of lambda bounds every leaf's extra duration.
pub proof fn lemma_extra_le(s: Seq<Node>, k: int)
    requires
        all_leaf_ok(s),
        0 <= k < s.len(),
    ensures
        0 <= extra(s[k]) <= gray_extra(s),
    decreases s.len(),
{
    let r = s.drop_first();
    assert(leaf_ok(s[k]));
    if k > 0 {
        assert(all_leaf_ok(r)) by {
            assert forall|j: int| 0 <= j < r.len() implies #[trigger] leaf_ok(r[j]) by {
                assert(r[j] == s[j + 1]);
            }
        }
        assert(r[k - 1] == s[k]);
        lemma_extra_le(r, k - 1);
    } else {
        lemma_summary_bounds(r);
    }
}

/// Total duration of the selected leaves at positions `k` and on.
pub open spec fn selected_p(s: Seq<Node>, sel: Seq<bool>, k: int) -> int
    decreases s.len() - k,
{
    if k < 0 || k >= s.len() {
        0
    } else {
        (if sel[k] { s[k].sum_p as int } else { 0 }) + selected_p(s, sel, k + 1)
    }
}

proof fn lemma_selected_le(s: Seq<Node>, sel: Seq<bool>, k: int)
    requires
        all_leaf_ok(s),
        sel.len() == s.len(),
        0 <= k <= s.len(),
    ensures
        selected_p(s, sel, k) <= sum_p_of(s.skip(k)),
    decreases s.len() - k,
{
    if k < s.len() {
        lemma_selected_le(s, sel, k + 1);
        assert(s.skip(k).drop_first() =~= s.skip(k + 1));
        assert(s.skip(k)[0] == s[k]);
        assert(leaf_ok(s[k]));
    } else {
        assert(s.skip(k).len() == 0);
    }
}

/// Theta's earliest completion time is the largest, over the sets of its tasks, of the
/// earliest start of the set plus its total duration: every set (the white leaves
/// selected by `sel`, the first at `q`, so the earliest to start) gives at most that, and
/// `lemma_ect_attained` names a set (the white leaves from some white leaf on) that gives it.
pub proof fn lemma_ect_bounds_sets(s: Seq<Node>, sel: Seq<bool>, q: int)
    requires
        all_leaf_ok(s),
        sel.len() == s.len(),
        0 <= q < s.len(),
        sel[q],
        forall|k: int| 0 <= k < s.len() && #[trigger] sel[k] ==> is_white(s[k]) && k >= q,
    ensures
        est(s[q]) + selected_p(s, sel, q) <= ect_of(s),
{
    lemma_selected_le(s, sel, q);
    assert(s.skip(q).drop_first() =~= s.skip(q + 1));
    assert(s.skip(q)[0] == s[q]);
    assert(leaf_ok(s[q]));
    lemma_term_le_ect(s, q);
}

/// A positive largest duration of lambda is the duration of a gray leaf.
proof fn lemma_gray_extra_attained(s: Seq<Node>)
    requires
        all_leaf_ok(s),
        gray_extra(s) > 0,
    ensures
        exists|g: int| 0 <= g < s.len() && #[trigger] is_gray_leaf(s[g]) && s[g].sum_p_bar == gray_extra(s),
    decreases s.len(),
{
    let r = s.drop_first();
    assert(leaf_ok(s[0]));
    assert(all_leaf_ok(r)) by {
        assert forall|k: int| 0 <= k < r.len() implies #[trigger] leaf_ok(r[k]) by {
            assert(r[k] == s[k + 1]);
        }
    }
    if s[0].sum_p_bar - s[0].sum_p >= gray_extra(r) {
        assert(is_gray_leaf(s[0]));
    } else {
        lemma_gray_extra_attained(r);
        let g = choose|g: int| 0 <= g < r.len() && #[trigger] is_gray_leaf(r[g]) && r[g].sum_p_bar == gray_extra(r);
        assert(r[g] == s[g + 1]);
        assert(is_gray_leaf(s[g + 1]));
    }
}

/// Theta with at most one task of lambda completes as the later of theta alone and the
/// best choice of one gray leaf put into theta.
pub proof fn lemma_ect_bar_best_gray(s: Seq<Node>)
    requires
        all_leaf_ok(s),
    ensures
        ect_of(s) <= ect_bar_of(s),
        forall|g: int| 0 <= g < s.len() ==> #[trigger] ect_of(whiten(s, g)) <= ect_bar_of(s),
        ect_bar_of(s) == ect_of(s) || exists|g: int|
            0 <= g < s.len() && #[trigger] is_gray_leaf(s[g]) && ect_of(whiten(s, g)) == ect_bar_of(s),
    decreases s.len(),
{
    lemma_summary_bounds(s);
    assert forall|g: int| 0 <= g < s.len() implies #[trigger] ect_of(whiten(s, g)) <= ect_bar_of(s) by {
        lemma_whiten_le_ect_bar(s, g);
    }
    if s.len() > 0 {
        let r = s.drop_first();
        let x = s[0];
        assert(leaf_ok(x));
        assert(all_leaf_ok(r)) by {
            assert forall|k: int| 0 <= k < r.len() implies #[trigger] leaf_ok(r[k]) by {
                assert(r[k] == s[k + 1]);
            }
        }
        lemma_summary_bounds(r);
        lemma_ect_bar_best_gray(r);
        let v = ect_bar_of(s);
        if v == ect_bar_of(r) && ect_bar_of(r) != ect_of(r) {
            let g = choose|g: int| 0 <= g < r.len() && #[trigger] is_gray_leaf(r[g]) && ect_of(whiten(r, g)) == ect_bar_of(r);
            let w = whiten(s, g + 1);
            assert(w.drop_first() =~= whiten(r, g));
            assert(w[0] == x);
            assert(s[g + 1] == r[g]);
            assert(ect_of(w) >= ect_of(whiten(r, g)));
            assert(ect_of(whiten(s, g + 1)) == v);
        } else if v == x.ect + sum_p_bar_of(r) && gray_extra(r) > 0 {
            lemma_gray_extra_attained(r);
            let g = choose|g: int| 0 <= g < r.len() && #[trigger] is_gray_leaf(r[g]) && r[g].sum_p_bar == gray_extra(r);
            let w = whiten(s, g + 1);
            assert(w.drop_first() =~= whiten(r, g));
            assert(w[0] == x);
            assert(s[g + 1] == r[g]);
            lemma_sum_p_update(r, g, whitened(r[g]));
            assert(ect_of(w) >= x.ect + sum_p_of(whiten(r, g)));
            assert(ect_of(whiten(s, g + 1)) == v);
        } else if v == x.ect_bar + sum_p_of(r) && is_gray_leaf(x) {
            let w = whiten(s, 0);
            assert(w.drop_first() =~= r);
            assert(ect_of(whiten(s, 0)) == v);
        } else {
            assert(ect_bar_of(s) == ect_of(s));
        }
    }
}

/// Number of leaves that hold a task.
pub open spec fn count_nonempty(s: Seq<Node>) -> nat
    decreases s.len(),
{
    if s.len() == 0 {
        0
    } else {
        (if is_empty_leaf(s[0]) { 0nat } else { 1nat }) + count_nonempty(s.drop_first())
    }
}

pub proof fn lemma_count_update(s: Seq<Node>, j: int, x: Node)
    requires
        0 <= j < s.len(),
        !is_empty_leaf(s[j]),
        is_empty_leaf(x),
    ensures
        count_nonempty(s.update(j, x)) + 1 == count_nonempty(s),
    decreases s.len(),
{
    if j > 0 {
        assert(s.update(j, x).drop_first() =~= s.drop_first().update(j - 1, x));
        lemma_count_update(s.drop_first(), j - 1, x);
    } else {
        assert(s.update(j, x).drop_first() =~= s.drop_first());
    }
}

/// Leaves without a task after theta change nothing.
pub proof fn lemma_pad_empty(s: Seq<Node>, e: Seq<Node>)
    requires
        all_leaf_ok(s),
        forall|k: int| 0 <= k < e.len() ==> #[trigger] is_empty_leaf(e[k]),
    ensures
        ect_of(s + e) == ect_of(s),
        sum_p_of(s + e) == sum_p_of(s),
        theta_entries(s + e) == theta_entries(s),
{
    assert forall|k: int| 0 <= k < e.len() implies #[trigger] leaf_ok(e[k]) by {
        assert(is_empty_leaf(e[k]));
    }
    assert(!has_white(e)) by {
        if has_white(e) {
            let k = choose|k: int| 0 <= k < e.len() && #[trigger] is_white(e[k]);
            assert(is_empty_leaf(e[k]));
        }
    }
    lemma_no_white(e);
    lemma_no_white_pairs(e);
    lemma_concat(s, e);
    lemma_summary_bounds(s);
    lemma_theta_entries_concat(s, e);
    assert(theta_entries(s) + Seq::<(IntVar, i32, bool)>::empty() =~= theta_entries(s));
}

/// With one white leaf `q`, theta completes when that leaf does.
pub proof fn lemma_single_white(s: Seq<Node>, q: int)
    requires
        all_leaf_ok(s),
        0 <= q < s.len(),
        is_white(s[q]),
        forall|k: int| 0 <= k < s.len() && k != q ==> !#[trigger] is_white(s[k]),
    ensures
        ect_of(s) == s[q].ect,
{
    lemma_ect_attained(s);
    let k = choose|k: int| 0 <= k < s.len() && is_white(s[k]) && #[trigger] term(s, k) == ect_of(s);
    assert(k == q);
    let r = s.skip(q + 1);
    lemma_leaf_ok_subrange(s, q + 1, s.len() as int);
    assert(r =~= s.subrange(q + 1, s.len() as int));
    assert(!has_white(r)) by {
        if has_white(r) {
            let k2 = choose|k2: int| 0 <= k2 < r.len() && #[trigger] is_white(r[k2]);
            assert(r[k2] == s[q + 1 + k2]);
        }
    }
    lemma_no_white(r);
}

/// Start time view and duration of each white leaf, left to right, marked as in theta.
pub open spec fn theta_entries(s: Seq<Node>) -> Seq<(IntVar, i32, bool)>
    decreases s.len(),
{
    if s.len() == 0 {
        Seq::empty()
    } else {
        theta_entry(s[0]) + theta_entries(s.drop_first())
    }
}

pub open spec fn theta_entry(x: Node) -> Seq<(IntVar, i32, bool)> {
    if x.ect != i32::MIN {
        seq![(x.node_id.unwrap().1, x.sum_p, true)]
    } else {
        Seq::empty()
    }
}

/// Start time view, duration and theta membership of each leaf that held a task.
pub open spec fn node_entries(s: Seq<Node>) -> Seq<(IntVar, i32, bool)>
    decreases s.len(),
{
    if s.len() == 0 {
        Seq::empty()
    } else {
        node_entry(s[0]) + node_entries(s.drop_first())
    }
}

pub open spec fn node_entry(x: Node) -> Seq<(IntVar, i32, bool)> {
    if x.ect != i32::MIN {
        seq![(x.node_id.unwrap().1, x.sum_p, true)]
    } else {
        match x.node_id {
            Some(id) => seq![(id.1, x.sum_p, false)],
            None => Seq::empty(),
        }
    }
}

/// Start time view and duration of each white leaf, left to right.
pub open spec fn white_pairs(s: Seq<Node>) -> Seq<(IntVar, i32)>
    decreases s.len(),
{
    if s.len() == 0 {
        Seq::empty()
    } else {
        white_pair(s[0]) + white_pairs(s.drop_first())
    }
}

pub open spec fn white_pair(x: Node) -> Seq<(IntVar, i32)> {
    if x.ect != i32::MIN {
        seq![(x.node_id.unwrap().1, x.sum_p)]
    } else {
        Seq::empty()
    }
}

pub proof fn lemma_theta_entries_concat(a: Seq<Node>, b: Seq<Node>)
    ensures
        theta_entries(a + b) == theta_entries(a) + theta_entries(b),
        node_entries(a + b) == node_entries(a) + node_entries(b),
        white_pairs(a + b) == white_pairs(a) + white_pairs(b),
    decreases a.len(),
{
    if a.len() == 0 {
        assert(a + b =~= b);
        assert(theta_entries(a) =~= Seq::empty());
        assert(node_entries(a) =~= Seq::empty());
        assert(white_pairs(a) =~= Seq::empty());
        assert(theta_entries(a) + theta_entries(b) =~= theta_entries(b));
        assert(node_entries(a) + node_entries(b) =~= node_entries(b));
        assert(white_pairs(a) + white_pairs(b) =~= white_pairs(b));
    } else {
        assert((a + b).drop_first() =~= a.drop_first() + b);
        assert((a + b)[0] == a[0]);
        lemma_theta_entries_concat(a.drop_first(), b);
        assert(theta_entry(a[0]) + (theta_entries(a.drop_first()) + theta_entries(b))
            =~= (theta_entry(a[0]) + theta_entries(a.drop_first())) + theta_entries(b));
        assert(node_entry(a[0]) + (node_entries(a.drop_first()) + node_entries(b))
            =~= (node_entry(a[0]) + node_entries(a.drop_first())) + node_entries(b));
        assert(white_pair(a[0]) + (white_pairs(a.drop_first()) + white_pairs(b))
            =~= (white_pair(a[0]) + white_pairs(a.drop_first())) + white_pairs(b));
    }
}

pub proof fn lemma_no_white_pairs(s: Seq<Node>)
    requires
        all_leaf_ok(s),
        !has_white(s),
    ensures
        white_pairs(s) == Seq::<(IntVar, i32)>::empty(),
        theta_entries(s) == Seq::<(IntVar, i32, bool)>::empty(),
    decreases s.len(),
{
    if s.len() > 0 {
        let r = s.drop_first();
        assert(leaf_ok(s[0]));
        assert(!is_white(s[0]));
        assert(all_leaf_ok(r)) by {
            assert forall|k: int| 0 <= k < r.len() implies #[trigger] leaf_ok(r[k]) by {
                assert(r[k] == s[k + 1]);
            }
        }
        assert(!has_white(r)) by {
            if has_white(r) {
                let k = choose|k: int| 0 <= k < r.len() && #[trigger] is_white(r[k]);
                assert(r[k] == s[k + 1]);
            }
        }
        lemma_no_white_pairs(r);
        assert(white_pairs(s) =~= Seq::<(IntVar, i32)>::empty());
        assert(theta_entries(s) =~= Seq::<(IntVar, i32, bool)>::empty());
    } else {
        assert(white_pairs(s) =~= Seq::<(IntVar, i32)>::empty());
        assert(theta_entries(s) =~= Seq::<(IntVar, i32, bool)>::empty());
    }
}

/// Splitting leaves at `q` splits the total duration of theta.
pub proof fn lemma_sum_p_split(s: Seq<Node>, q: int)
    requires
        all_leaf_ok(s),
        0 <= q <= s.len(),
    ensures
        sum_p_of(s) == sum_p_of(s.take(q)) + sum_p_of(s.skip(q)),
        0 <= sum_p_of(s.take(q)),
        0 <= sum_p_of(s.skip(q)),
{
    assert(s =~= s.take(q) + s.skip(q));
    lemma_leaf_ok_subrange(s, 0, q);
    lemma_leaf_ok_subrange(s, q, s.len() as int);
    assert(s.take(q) =~= s.subrange(0, q));
    assert(s.skip(q) =~= s.subrange(q, s.len() as int));
    lemma_concat(s.take(q), s.skip(q));
    lemma_summary_bounds(s.take(q));
    lemma_summary_bounds(s.skip(q));
}

/// Total duration of a list of theta entries.
pub open spec fn sum_entries(t: Seq<(IntVar, i32, bool)>) -> int
    decreases t.len(),
{
    if t.len() == 0 {
        0
    } else {
        t[0].1 + sum_entries(t.drop_first())
    }
}

pub proof fn lemma_sum_entries_concat(a: Seq<(IntVar, i32, bool)>, b: Seq<(IntVar, i32, bool)>)
    ensures
        sum_entries(a + b) == sum_entries(a) + sum_entries(b),
    decreases a.len(),
{
    if a.len() == 0 {
        assert(a + b =~= b);
    } else {
        assert((a + b).drop_first() =~= a.drop_first() + b);
        lemma_sum_entries_concat(a.drop_first(), b);
    }
}

/// The theta list has the total duration of theta.
pub proof fn lemma_sum_entries(s: Seq<Node>)
    requires
        all_leaf_ok(s),
    ensures
        sum_entries(theta_entries(s)) == sum_p_of(s),
    decreases s.len(),
{
    if s.len() > 0 {
        let r = s.drop_first();
        assert(leaf_ok(s[0]));
        assert(all_leaf_ok(r)) by {
            assert forall|k: int| 0 <= k < r.len() implies #[trigger] leaf_ok(r[k]) by {
                assert(r[k] == s[k + 1]);
            }
        }
        lemma_sum_entries(r);
        lemma_sum_entries_concat(theta_entry(s[0]), theta_entries(r));
        if s[0].ect != i32::MIN {
            let e = theta_entry(s[0]);
            assert(e.drop_first() =~= Seq::<(IntVar, i32, bool)>::empty());
            assert(sum_entries(e.drop_first()) == 0);
            assert(e[0].1 == s[0].sum_p);
            assert(sum_entries(e) == s[0].sum_p);
        } else {
            assert(sum_entries(theta_entry(s[0])) == 0);
        }
    }
}

/// The completion time of any run of theta is at most theta's.
pub proof fn lemma_term_le_ect(s: Seq<Node>, q: int)
    requires
        all_leaf_ok(s),
        0 <= q < s.len(),
    ensures
        term(s, q) <= ect_of(s),
    decreases s.len(),
{
    let r = s.drop_first();
    assert(s.skip(1) =~= r);
    if q > 0 {
        assert(all_leaf_ok(r)) by {
            assert forall|k: int| 0 <= k < r.len() implies #[trigger] leaf_ok(r[k]) by {
                assert(r[k] == s[k + 1]);
            }
        }
        assert(s.skip(q + 1) =~= r.skip(q));
        assert(s[q] == r[q - 1]);
        lemma_term_le_ect(r, q - 1);
    }
}

/// Position `q` of the leaves is white and holds entry `j` of the theta list, after which
/// the list continues with the entries of the leaves after `q`.
pub open spec fn entry_at(s: Seq<Node>, j: int, q: int) -> bool {
    &&& 0 <= q < s.len()
    &&& 0 <= j < theta_entries(s).len()
    &&& is_white(s[q])
    &&& theta_entries(s)[j] == (s[q].node_id.unwrap().1, s[q].sum_p, true)
    &&& theta_entries(s).skip(j) == theta_entries(s.skip(q))
    &&& theta_entries(s.take(q)).len() == j
}

/// Every white leaf holds an entry of the theta list.
pub proof fn lemma_white_entry(s: Seq<Node>, q: int)
    requires
        all_leaf_ok(s),
        0 <= q < s.len(),
        is_white(s[q]),
    ensures
        entry_at(s, theta_entries(s.take(q)).len() as int, q),
{
    assert(s =~= s.take(q) + s.skip(q));
    lemma_theta_entries_concat(s.take(q), s.skip(q));
    let rest = s.skip(q);
    assert(rest =~= seq![s[q]] + s.skip(q + 1));
    lemma_theta_entries_concat(seq![s[q]], s.skip(q + 1));
    lemma_entries_single(s[q]);
    assert(leaf_ok(s[q]));
    let j = theta_entries(s.take(q)).len() as int;
    assert(theta_entries(s).skip(j) =~= theta_entries(s.skip(q)));
    assert(theta_entries(s)[j] == theta_entries(s.skip(q))[0]);
}

/// Every entry of the theta list is held by a white leaf.
pub proof fn lemma_entry_white(s: Seq<Node>, j: int)
    requires
        all_leaf_ok(s),
        0 <= j < theta_entries(s).len(),
    ensures
        exists|q: int| #[trigger] entry_at(s, j, q),
    decreases s.len(),
{
    let r = s.drop_first();
    assert(leaf_ok(s[0]));
    assert(all_leaf_ok(r)) by {
        assert forall|k: int| 0 <= k < r.len() implies #[trigger] leaf_ok(r[k]) by {
            assert(r[k] == s[k + 1]);
        }
    }
    assert(s =~= seq![s[0]] + r);
    if s[0].ect != i32::MIN && j == 0 {
        assert(s.take(0) =~= Seq::<Node>::empty());
        assert(theta_entries(s.take(0)) =~= Seq::empty());
        lemma_white_entry(s, 0);
        assert(entry_at(s, 0, 0));
    } else {
        let j1 = if s[0].ect != i32::MIN { j - 1 } else { j };
        assert(theta_entries(s) == theta_entry(s[0]) + theta_entries(r));
        lemma_entry_white(r, j1);
        let q1 = choose|q: int| #[trigger] entry_at(r, j1, q);
        let q = q1 + 1;
        assert(s[q] == r[q1]);
        lemma_white_entry(s, q);
        lemma_white_entry(r, q1);
        assert(s.take(q) =~= seq![s[0]] + r.take(q1));
        lemma_theta_entries_concat(seq![s[0]], r.take(q1));
        lemma_entries_single(s[0]);
        assert(entry_at(s, j, q));
    }
}

/// Every entry of the theta list is marked as in theta.
pub proof fn lemma_theta_marked(s: Seq<Node>)
    ensures
        forall|k: int| 0 <= k < theta_entries(s).len() ==> (#[trigger] theta_entries(s)[k]).2,
    decreases s.len(),
{
    if s.len() > 0 {
        lemma_theta_marked(s.drop_first());
        let t = theta_entries(s);
        assert forall|k: int| 0 <= k < t.len() implies (#[trigger] t[k]).2 by {
            let e = theta_entry(s[0]);
            if k < e.len() {
                assert(t[k] == e[k]);
            } else {
                assert(t[k] == theta_entries(s.drop_first())[k - e.len()]);
            }
        }
    }
}

pub proof fn lemma_entries_single(x: Node)
    ensures
        theta_entries(seq![x]) == theta_entry(x),
        node_entries(seq![x]) == node_entry(x),
        white_pairs(seq![x]) == white_pair(x),
{
    let e = seq![x].drop_first();
    assert(e =~= Seq::<Node>::empty());
    assert(seq![x][0] == x);
    assert(theta_entries(e) =~= Seq::empty());
    assert(node_entries(e) =~= Seq::empty());
    assert(white_pairs(e) =~= Seq::empty());
    assert(theta_entry(x) + Seq::empty() =~= theta_entry(x));
    assert(node_entry(x) + Seq::empty() =~= node_entry(x));
    assert(white_pair(x) + Seq::empty() =~= white_pair(x));
}

/// The entries of the first `i + 1` leaves extend those of the first `i`.
pub proof fn lemma_entries_take(s: Seq<Node>, i: int)
    requires
        0 <= i < s.len(),
    ensures
        theta_entries(s.take(i + 1)) == theta_entries(s.take(i)) + theta_entry(s[i]),
        node_entries(s.take(i + 1)) == node_entries(s.take(i)) + node_entry(s[i]),
{
    assert(s.take(i + 1) =~= s.take(i) + seq![s[i]]);
    lemma_theta_entries_concat(s.take(i), seq![s[i]]);
    lemma_entries_single(s[i]);
}

/// How many of the leaves hold, or held, a task.
pub open spec fn held_count(s: Seq<Node>) -> int
    decreases s.len(),
{
    if s.len() == 0 {
        0
    } else {
        (if s[0].node_id is Some {
            1int
        } else {
            0int
        }) + held_count(s.drop_first())
    }
}

/// The listing of the leaves names each leaf that holds or held a task exactly once, in
/// leaf order: the leaf at `q` comes after those of the leaves before it, with its start
/// time view, its duration in theta, and whether it is in theta (white).
pub proof fn lemma_node_entries_listing(s: Seq<Node>)
    requires
        all_leaf_ok(s),
    ensures
        node_entries(s).len() == held_count(s),
        forall|q: int|
            0 <= q < s.len() && (#[trigger] s[q]).node_id is Some ==> {
                &&& 0 <= held_count(s.take(q)) < held_count(s)
                &&& node_entries(s)[held_count(s.take(q))] == (s[q].node_id.unwrap().1, s[q].sum_p, is_white(s[q]))
            },
    decreases s.len(),
{
    if s.len() > 0 {
        let r = s.drop_first();
        assert(all_leaf_ok(r)) by {
            assert forall|k: int| 0 <= k < r.len() implies #[trigger] leaf_ok(r[k]) by {
                assert(r[k] == s[k + 1]);
            }
        }
        lemma_node_entries_listing(r);
        assert(leaf_ok(s[0]));
        let e0 = node_entry(s[0]);
        assert(e0.len() == (if s[0].node_id is Some { 1int } else { 0int }));
        assert(node_entries(s) == e0 + node_entries(r));
        assert forall|q: int| 0 <= q < s.len() && (#[trigger] s[q]).node_id is Some implies {
            &&& 0 <= held_count(s.take(q)) < held_count(s)
            &&& node_entries(s)[held_count(s.take(q))] == (s[q].node_id.unwrap().1, s[q].sum_p, is_white(s[q]))
        } by {
            if q == 0 {
                assert(s.take(0).len() == 0);
                assert(held_count(s.take(0)) == 0);
                lemma_held_count_nonneg(r);
            } else {
                let tq = s.take(q);
                assert(tq[0] == s[0]);
                assert(tq.drop_first() =~= r.take(q - 1));
                assert(r[q - 1] == s[q]);
                assert(held_count(tq) == e0.len() + held_count(r.take(q - 1)));
            }
        }
    }
}

proof fn lemma_held_count_nonneg(s: Seq<Node>)
    ensures
        held_count(s) >= 0,
    decreases s.len(),
{
    if s.len() > 0 {
        lemma_held_count_nonneg(s.drop_first());
    }
}

/// How many of the leaves are white (hold a task of theta).
pub open spec fn white_count(s: Seq<Node>) -> int
    decreases s.len(),
{
    if s.len() == 0 {
        0
    } else {
        (if is_white(s[0]) {
            1int
        } else {
            0int
        }) + white_count(s.drop_first())
    }
}

proof fn lemma_white_count_nonneg(s: Seq<Node>)
    ensures
        white_count(s) >= 0,
    decreases s.len(),
{
    if s.len() > 0 {
        lemma_white_count_nonneg(s.drop_first());
    }
}

/// The theta list, and the list of start time views and durations of theta, name each
/// white leaf exactly once and no other leaf, in leaf order: the white leaf at `q` comes
/// after the white leaves before it, with its start time view and its duration.
pub proof fn lemma_white_listing(s: Seq<Node>)
    requires
        all_leaf_ok(s),
    ensures
        theta_entries(s).len() == white_count(s),
        white_pairs(s).len() == white_count(s),
        forall|q: int|
            0 <= q < s.len() && is_white(#[trigger] s[q]) ==> {
                &&& 0 <= white_count(s.take(q)) < white_count(s)
                &&& theta_entries(s)[white_count(s.take(q))] == (s[q].node_id.unwrap().1, s[q].sum_p, true)
                &&& white_pairs(s)[white_count(s.take(q))] == (s[q].node_id.unwrap().1, s[q].sum_p)
            },
    decreases s.len(),
{
    if s.len() > 0 {
        let r = s.drop_first();
        assert(all_leaf_ok(r)) by {
            assert forall|k: int| 0 <= k < r.len() implies #[trigger] leaf_ok(r[k]) by {
                assert(r[k] == s[k + 1]);
            }
        }
        lemma_white_listing(r);
        assert(leaf_ok(s[0]));
        let c0: int = if is_white(s[0]) { 1 } else { 0 };
        assert(theta_entry(s[0]).len() == c0);
        assert(white_pair(s[0]).len() == c0);
        assert(theta_entries(s) == theta_entry(s[0]) + theta_entries(r));
        assert(white_pairs(s) == white_pair(s[0]) + white_pairs(r));
        assert forall|q: int| 0 <= q < s.len() && is_white(#[trigger] s[q]) implies {
            &&& 0 <= white_count(s.take(q)) < white_count(s)
            &&& theta_entries(s)[white_count(s.take(q))] == (s[q].node_id.unwrap().1, s[q].sum_p, true)
            &&& white_pairs(s)[white_count(s.take(q))] == (s[q].node_id.unwrap().1, s[q].sum_p)
        } by {
            if q == 0 {
                assert(s.take(0).len() == 0);
                assert(white_count(s.take(0)) == 0);
                lemma_white_count_nonneg(r);
            } else {
                let tq = s.take(q);
                assert(tq[0] == s[0]);
                assert(tq.drop_first() =~= r.take(q - 1));
                assert(r[q - 1] == s[q]);
                assert(white_count(tq) == c0 + white_count(r.take(q - 1)));
            }
        }
    }
}

} // verus!
