//! Stable ordering of indices by integer keys.
use vstd::prelude::*;

verus! {

/// Index `a` goes before index `b`: a smaller key, or the same key and a smaller index.
pub open spec fn key_before(keys: Seq<i32>, a: int, b: int) -> bool {
    keys[a] < keys[b] || (keys[a] == keys[b] && a < b)
}

/// `order` lists every index of `keys` once, by increasing key, equal keys in index order:
/// the order a stable sort gives.
pub open spec fn is_stable_order(order: Seq<usize>, keys: Seq<i32>) -> bool {
    &&& order.len() == keys.len()
    &&& forall|a: int| 0 <= a < order.len() ==> #[trigger] order[a] < keys.len()
    &&& forall|j: int| 0 <= j < keys.len() ==> #[trigger] order.contains(j as usize)
    &&& forall|a: int, b: int|
        0 <= a < b < order.len() ==> key_before(keys, #[trigger] order[a] as int, #[trigger] order[b] as int)
}

/// The indices of `keys` in stable order of their keys.
pub fn stable_order(keys: &Vec<i32>) -> (r: Vec<usize>)
    ensures
        is_stable_order(r@, keys@),
{
    let mut order: Vec<usize> = Vec::new();
    let mut i: usize = 0;
    while i < keys.len()
        invariant
            i <= keys@.len(),
            order@.len() == i,
            forall|a: int| 0 <= a < order@.len() ==> #[trigger] order@[a] < i,
            forall|j: int| 0 <= j < i ==> #[trigger] order@.contains(j as usize),
            forall|a: int, b: int|
                0 <= a < b < order@.len() ==> key_before(keys@, #[trigger] order@[a] as int, #[trigger] order@[b] as int),
        decreases keys@.len() - i,
    {
        let ki = keys[i];
        let mut pos = order.len();
        while pos > 0 && keys[order[pos - 1]] > ki
            invariant
                pos <= order@.len(),
                order@.len() == i,
                i < keys@.len(),
                ki == keys@[i as int],
                forall|a: int| 0 <= a < order@.len() ==> #[trigger] order@[a] < i,
                forall|a: int| pos <= a < order@.len() ==> keys@[#[trigger] order@[a] as int] > ki,
            decreases pos,
        {
            pos = pos - 1;
        }
        let ghost prev = order@;
        proof {
            assert forall|a: int| 0 <= a < pos implies key_before(keys@, #[trigger] prev[a] as int, i as int) by {
                if a < pos - 1 {
                    assert(key_before(keys@, prev[a] as int, prev[pos - 1] as int));
                }
            }
        }
        order.insert(pos, i);
        proof {
            let s = order@;
            assert(s =~= prev.insert(pos as int, i));
            assert forall|a: int| 0 <= a < s.len() implies #[trigger] s[a] < i + 1 by {
                if a < pos {
                    assert(s[a] == prev[a]);
                } else if a > pos {
                    assert(s[a] == prev[a - 1]);
                }
            }
            assert forall|j: int| 0 <= j < i + 1 implies #[trigger] s.contains(j as usize) by {
                if j == i {
                    assert(s[pos as int] == i);
                } else {
                    assert(prev.contains(j as usize));
                    let a = choose|a: int| 0 <= a < prev.len() && prev[a] == j as usize;
                    if a < pos {
                        assert(s[a] == prev[a]);
                    } else {
                        assert(s[a + 1] == prev[a]);
                    }
                }
            }
            assert forall|a: int, b: int| 0 <= a < b < s.len() implies key_before(
                keys@,
                #[trigger] s[a] as int,
                #[trigger] s[b] as int,
            ) by {
                if b < pos {
                    assert(s[a] == prev[a] && s[b] == prev[b]);
                } else if b == pos {
                    assert(s[a] == prev[a]);
                } else if a > pos {
                    assert(s[a] == prev[a - 1] && s[b] == prev[b - 1]);
                } else if a == pos {
                    assert(s[b] == prev[b - 1]);
                } else {
                    assert(s[a] == prev[a] && s[b] == prev[b - 1]);
                }
            }
        }
        i = i + 1;
    }
    order
}

/// Sum of a sequence of integers.
pub open spec fn sum_int(w: Seq<int>) -> int
    decreases w.len(),
{
    if w.len() == 0 {
        0
    } else {
        sum_int(w.drop_last()) + w.last()
    }
}

/// Sum of the entries of `w` at the positions listed in `o`.
pub open spec fn sum_selected(w: Seq<int>, o: Seq<usize>) -> int
    decreases o.len(),
{
    if o.len() == 0 {
        0
    } else {
        sum_selected(w, o.drop_last()) + w[o.last() as int]
    }
}

pub proof fn lemma_sum_update(w: Seq<int>, x: int, v: int)
    requires
        0 <= x < w.len(),
    ensures
        sum_int(w.update(x, v)) == sum_int(w) - w[x] + v,
    decreases w.len(),
{
    let u = w.update(x, v);
    if x < w.len() - 1 {
        assert(u.drop_last() =~= w.drop_last().update(x, v));
        lemma_sum_update(w.drop_last(), x, v);
    } else {
        assert(u.drop_last() =~= w.drop_last());
    }
}

pub proof fn lemma_sum_nonneg(w: Seq<int>)
    requires
        forall|k: int| 0 <= k < w.len() ==> #[trigger] w[k] >= 0,
    ensures
        sum_int(w) >= 0,
    decreases w.len(),
{
    if w.len() > 0 {
        lemma_sum_nonneg(w.drop_last());
    }
}

pub proof fn lemma_sum_selected_agree(w1: Seq<int>, w2: Seq<int>, o: Seq<usize>)
    requires
        forall|a: int| 0 <= a < o.len() ==> #[trigger] o[a] < w1.len() && o[a] < w2.len() && w1[o[a] as int] == w2[o[a] as int],
    ensures
        sum_selected(w1, o) == sum_selected(w2, o),
    decreases o.len(),
{
    if o.len() > 0 {
        let o1 = o.drop_last();
        assert forall|a: int| 0 <= a < o1.len() implies #[trigger] o1[a] < w1.len() && o1[a] < w2.len() && w1[o1[a] as int] == w2[o1[a] as int] by {
            assert(o1[a] == o[a]);
        }
        lemma_sum_selected_agree(w1, w2, o1);
        assert(o[o.len() - 1] < w1.len());
    }
}

/// Selecting distinct positions of non-negative numbers sums to at most the total.
pub proof fn lemma_sum_selected_le(w: Seq<int>, o: Seq<usize>)
    requires
        forall|k: int| 0 <= k < w.len() ==> #[trigger] w[k] >= 0,
        forall|a: int| 0 <= a < o.len() ==> #[trigger] o[a] < w.len(),
        forall|a: int, b: int| 0 <= a < b < o.len() ==> #[trigger] o[a] != #[trigger] o[b],
    ensures
        sum_selected(w, o) <= sum_int(w),
    decreases o.len(),
{
    lemma_sum_nonneg(w);
    if o.len() > 0 {
        let x = o.last() as int;
        let o1 = o.drop_last();
        let w1 = w.update(x, 0);
        assert(o[o.len() - 1] < w.len());
        lemma_sum_update(w, x, 0);
        assert forall|a: int| 0 <= a < o1.len() implies #[trigger] o1[a] < w.len() && o1[a] < w1.len() && w[o1[a] as int] == w1[o1[a] as int] by {
            assert(o1[a] == o[a]);
            assert(o[a] != o[o.len() - 1]);
        }
        lemma_sum_selected_agree(w, w1, o1);
        assert forall|k: int| 0 <= k < w1.len() implies #[trigger] w1[k] >= 0 by {}
        assert forall|a: int, b: int| 0 <= a < b < o1.len() implies #[trigger] o1[a] != #[trigger] o1[b] by {
            assert(o1[a] == o[a] && o1[b] == o[b]);
        }
        lemma_sum_selected_le(w1, o1);
    }
}

/// A stable order lists distinct indices.
pub proof fn lemma_stable_order_distinct(order: Seq<usize>, keys: Seq<i32>)
    requires
        is_stable_order(order, keys),
    ensures
        forall|a: int, b: int| 0 <= a < b < order.len() ==> #[trigger] order[a] != #[trigger] order[b],
{
    assert forall|a: int, b: int| 0 <= a < b < order.len() implies #[trigger] order[a] != #[trigger] order[b] by {
        assert(key_before(keys, order[a] as int, order[b] as int));
    }
}

proof fn lemma_stable_orders_agree(o1: Seq<usize>, o2: Seq<usize>, keys: Seq<i32>, p: int)
    requires
        is_stable_order(o1, keys),
        is_stable_order(o2, keys),
        0 <= p <= o1.len(),
    ensures
        forall|q: int| 0 <= q < p ==> o1[q] == o2[q],
    decreases p,
{
    if p > 0 {
        lemma_stable_orders_agree(o1, o2, keys, p - 1);
        lemma_stable_order_distinct(o1, keys);
        lemma_stable_order_distinct(o2, keys);
        let x = p - 1;
        let u = o1[x];
        let v = o2[x];
        if u != v {
            let ju = u as int;
            let jv = v as int;
            assert(0 <= ju < keys.len());
            assert(0 <= jv < keys.len());
            assert(o2.contains(ju as usize));
            assert(o1.contains(jv as usize));
            let pu = choose|i: int| 0 <= i < o2.len() && o2[i] == u;
            let pv = choose|i: int| 0 <= i < o1.len() && o1[i] == v;
            if pu < x {
                assert(o1[pu] == u);
            }
            if pv < x {
                assert(o2[pv] == v);
            }
            assert(key_before(keys, v as int, u as int));
            assert(key_before(keys, u as int, v as int));
        }
    }
}

/// There is one stable order of a list of keys: any two agree.
pub proof fn lemma_stable_order_unique(o1: Seq<usize>, o2: Seq<usize>, keys: Seq<i32>)
    requires
        is_stable_order(o1, keys),
        is_stable_order(o2, keys),
    ensures
        o1 == o2,
{
    lemma_stable_orders_agree(o1, o2, keys, o1.len() as int);
    assert(o1 =~= o2);
}

} // verus!
