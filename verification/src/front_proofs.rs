//! Facts about non-dominated fronts and the counts that fast non-dominated sorting keeps.

use vstd::prelude::*;
use vstd::set_lib::{set_int_range, lemma_int_range, lemma_len_subset, lemma_set_disjoint_lens};
use crate::order_key::OrderKey;
use crate::multi_objective::{dom, front_after, ranked_below, front_set, last_dominator_position};

verus! {

/// The number of solutions among `0..hi` that dominate solution `x`.
pub open spec fn dominator_count(t: Seq<Seq<OrderKey>>, x: int, hi: int) -> nat
    decreases hi,
{
    if hi <= 0 {
        0
    } else {
        dominator_count(t, x, hi - 1) + if dom(t, hi - 1, x) { 1nat } else { 0nat }
    }
}

/// The solutions among `0..hi` that solution `x` dominates, in increasing order.
pub open spec fn dominated_list(t: Seq<Seq<OrderKey>>, x: int, hi: int) -> Seq<usize>
    decreases hi,
{
    if hi <= 0 {
        Seq::empty()
    } else if dom(t, x, hi - 1) {
        dominated_list(t, x, hi - 1).push((hi - 1) as usize)
    } else {
        dominated_list(t, x, hi - 1)
    }
}

/// The number of solutions among `0..hi` that dominate solution `x` and are not in `done`.
pub open spec fn unsettled_count(t: Seq<Seq<OrderKey>>, x: int, done: Set<int>, hi: int) -> nat
    decreases hi,
{
    if hi <= 0 {
        0
    } else {
        unsettled_count(t, x, done, hi - 1) + if dom(t, hi - 1, x) && !done.contains(hi - 1) {
            1nat
        } else {
            0nat
        }
    }
}

pub proof fn lemma_dominator_count_bound(t: Seq<Seq<OrderKey>>, x: int, hi: int)
    requires
        0 <= hi,
    ensures
        dominator_count(t, x, hi) <= hi,
    decreases hi,
{
    if hi > 0 {
        lemma_dominator_count_bound(t, x, hi - 1);
    }
}

pub proof fn lemma_dominator_count_zero(t: Seq<Seq<OrderKey>>, x: int, hi: int)
    requires
        0 <= hi,
    ensures
        dominator_count(t, x, hi) == 0 <==> forall|y: int| 0 <= y < hi ==> !#[trigger] dom(t, y, x),
    decreases hi,
{
    if hi > 0 {
        lemma_dominator_count_zero(t, x, hi - 1);
    }
}

pub proof fn lemma_dominated_list(t: Seq<Seq<OrderKey>>, x: int, hi: int)
    requires
        0 <= hi <= usize::MAX + 1,
    ensures
        forall|a: int, b: int|
            0 <= a < b < dominated_list(t, x, hi).len() ==> dominated_list(t, x, hi)[a] < dominated_list(t, x, hi)[b],
        forall|a: int| 0 <= a < dominated_list(t, x, hi).len() ==> (#[trigger] dominated_list(t, x, hi)[a]) < hi,
        forall|y: usize| #[trigger] dominated_list(t, x, hi).contains(y) <==> (y < hi && dom(t, x, y as int)),
    decreases hi,
{
    if hi > 0 {
        lemma_dominated_list(t, x, hi - 1);
        let prev = dominated_list(t, x, hi - 1);
        let cur = dominated_list(t, x, hi);
        assert forall|y: usize| #[trigger] cur.contains(y) <==> (y < hi && dom(t, x, y as int)) by {
            if dom(t, x, hi - 1) {
                if y == (hi - 1) as usize {
                    assert(cur[cur.len() - 1] == y);
                } else if prev.contains(y) {
                    let a = choose|a: int| 0 <= a < prev.len() && prev[a] == y;
                    assert(cur[a] == y);
                } else if cur.contains(y) {
                    let a = choose|a: int| 0 <= a < cur.len() && cur[a] == y;
                    assert(a < prev.len() ==> prev[a] == y);
                }
            }
        }
    }
}

pub proof fn lemma_unsettled_empty(t: Seq<Seq<OrderKey>>, x: int, hi: int)
    ensures
        unsettled_count(t, x, Set::empty(), hi) == dominator_count(t, x, hi),
    decreases hi,
{
    if hi > 0 {
        lemma_unsettled_empty(t, x, hi - 1);
    }
}

pub proof fn lemma_unsettled_insert(t: Seq<Seq<OrderKey>>, x: int, done: Set<int>, i: int, hi: int)
    requires
        !done.contains(i),
        0 <= i < hi,
    ensures
        unsettled_count(t, x, done, hi) == unsettled_count(t, x, done.insert(i), hi) + if dom(t, i, x) {
            1nat
        } else {
            0nat
        },
    decreases hi,
{
    if hi - 1 > i {
        lemma_unsettled_insert(t, x, done, i, hi - 1);
    } else {
        lemma_unsettled_same(t, x, done, done.insert(i), hi - 1);
    }
}

pub proof fn lemma_unsettled_same(t: Seq<Seq<OrderKey>>, x: int, d1: Set<int>, d2: Set<int>, hi: int)
    requires
        forall|y: int| 0 <= y < hi ==> (d1.contains(y) <==> d2.contains(y)),
    ensures
        unsettled_count(t, x, d1, hi) == unsettled_count(t, x, d2, hi),
    decreases hi,
{
    if hi > 0 {
        lemma_unsettled_same(t, x, d1, d2, hi - 1);
    }
}

pub proof fn lemma_unsettled_zero(t: Seq<Seq<OrderKey>>, x: int, done: Set<int>, hi: int)
    ensures
        unsettled_count(t, x, done, hi) == 0 <==> forall|y: int|
            0 <= y < hi && #[trigger] dom(t, y, x) ==> done.contains(y),
    decreases hi,
{
    if hi > 0 {
        lemma_unsettled_zero(t, x, done, hi - 1);
    }
}

/// The ranked solutions are solutions of the table, finitely many.
pub proof fn lemma_ranked_below_range(t: Seq<Seq<OrderKey>>, k: nat)
    ensures
        ranked_below(t, k).subset_of(set_int_range(0, t.len() as int)),
        ranked_below(t, k).finite(),
        ranked_below(t, k).len() <= t.len(),
    decreases k,
{
    lemma_int_range(0, t.len() as int);
    if k > 0 {
        lemma_ranked_below_range(t, (k - 1) as nat);
    }
    lemma_len_subset(ranked_below(t, k), set_int_range(0, t.len() as int));
}

/// A front is finite, disjoint from the fronts before it, and ranking it adds its size.
pub proof fn lemma_front_growth(t: Seq<Seq<OrderKey>>, k: nat)
    ensures
        front_set(t, k).finite(),
        front_set(t, k).disjoint(ranked_below(t, k)),
        ranked_below(t, k + 1) == ranked_below(t, k).union(front_set(t, k)),
        ranked_below(t, k + 1).len() == ranked_below(t, k).len() + front_set(t, k).len(),
{
    lemma_int_range(0, t.len() as int);
    lemma_ranked_below_range(t, k);
    lemma_len_subset(front_set(t, k), set_int_range(0, t.len() as int));
    lemma_set_disjoint_lens(ranked_below(t, k), front_set(t, k));
}

/// The dominators of a ranked solution are ranked too.
pub proof fn lemma_ranked_dominators(t: Seq<Seq<OrderKey>>, k: nat, x: int, y: int)
    requires
        ranked_below(t, k).contains(x),
        0 <= y < t.len(),
        dom(t, y, x),
    ensures
        ranked_below(t, k).contains(y),
    decreases k,
{
    if k > 0 {
        let done = ranked_below(t, (k - 1) as nat);
        if done.contains(x) {
            lemma_ranked_dominators(t, (k - 1) as nat, x, y);
        } else {
            assert(front_after(t, done).contains(x));
        }
    }
}

/// Earlier rankings are contained in later ones.
pub proof fn lemma_ranked_below_monotone(t: Seq<Seq<OrderKey>>, k1: nat, k2: nat)
    requires
        k1 <= k2,
    ensures
        ranked_below(t, k1).subset_of(ranked_below(t, k2)),
    decreases k2,
{
    if k1 < k2 {
        lemma_ranked_below_monotone(t, k1, (k2 - 1) as nat);
    }
}

pub proof fn lemma_last_dominator_position(t: Seq<Seq<OrderKey>>, f: Seq<usize>, x: int, len: int)
    requires
        0 <= len <= f.len(),
    ensures
        -1 <= last_dominator_position(t, f, x, len) < len,
        last_dominator_position(t, f, x, len) >= 0 ==> dom(
            t,
            f[last_dominator_position(t, f, x, len)] as int,
            x,
        ),
        forall|q: int|
            last_dominator_position(t, f, x, len) < q < len ==> !dom(t, #[trigger] f[q] as int, x),
    decreases len,
{
    if len > 0 {
        lemma_last_dominator_position(t, f, x, len - 1);
    }
}


/// While the solutions of front `k` (listed in `f`, each once) release the solutions they
/// dominate in order, solution `j`, dominated by `f[p]`, has all its dominators ranked
/// once `f[p]` is, exactly when it belongs to front `k + 1` and `f[p]` is its last
/// dominator in `f`.
pub proof fn lemma_release(t: Seq<Seq<OrderKey>>, k: nat, f: Seq<usize>, p: int, j: int, done: Set<int>)
    requires
        0 <= p < f.len(),
        0 <= j < t.len(),
        t.len() <= usize::MAX,
        forall|x: usize| #[trigger] f.contains(x) <==> front_set(t, k).contains(x as int),
        forall|a: int, b: int| 0 <= a < b < f.len() ==> f[a] != f[b],
        forall|y: int| #[trigger] done.contains(y) <==> (ranked_below(t, k).contains(y) || exists|q: int|
            0 <= q < p && f[q] as int == y),
        dom(t, f[p] as int, j),
    ensures
        (forall|y: int| 0 <= y < t.len() && #[trigger] dom(t, y, j) ==> done.insert(f[p] as int).contains(y))
            <==> (front_set(t, k + 1).contains(j) && last_dominator_position(t, f, j, f.len() as int) == p),
{
    let rb = ranked_below(t, k);
    let i = f[p] as int;
    lemma_front_growth(t, k);
    lemma_last_dominator_position(t, f, j, f.len() as int);
    let lp = last_dominator_position(t, f, j, f.len() as int);
    assert(f.contains(f[p]));
    assert(front_set(t, k).contains(i));
    assert(!rb.contains(i));
    if forall|y: int| 0 <= y < t.len() && #[trigger] dom(t, y, j) ==> done.insert(i).contains(y) {
        // the last dominator in f is f[p]
        if lp > p {
            let y = f[lp] as int;
            assert(f.contains(f[lp]));
            assert(front_set(t, k).contains(y));
            assert(done.insert(i).contains(y));
            if y != i {
                let q = choose|q: int| 0 <= q < p && f[q] as int == y;
                assert(f[q] != f[lp]);
            } else {
                assert(f[p] != f[lp]);
            }
        }
        assert(lp >= p);
        // j is not ranked yet
        if rb.contains(j) {
            lemma_ranked_dominators(t, k, j, i);
        }
        if front_set(t, k).contains(j) {
            assert(dom(t, i, j));
        }
        assert forall|y: int| 0 <= y < t.len() && #[trigger] dom(t, y, j) implies ranked_below(t, k + 1).contains(y) by {
            assert(done.insert(i).contains(y));
            if y != i && !rb.contains(y) {
                let q = choose|q: int| 0 <= q < p && f[q] as int == y;
                assert(f.contains(f[q]));
            }
        }
        assert(front_set(t, k + 1).contains(j));
    }
    if front_set(t, k + 1).contains(j) && lp == p {
        assert forall|y: int| 0 <= y < t.len() && #[trigger] dom(t, y, j) implies done.insert(i).contains(y) by {
            assert(ranked_below(t, k + 1).contains(y));
            if !rb.contains(y) {
                assert(front_set(t, k).contains(y));
                assert(f.contains(y as usize));
                let q = choose|q: int| 0 <= q < f.len() && f[q] == y as usize;
                if q > p {
                    assert(!dom(t, f[q] as int, j));
                }
                if q < p {
                    assert(f[q] as int == y);
                    assert(done.contains(y));
                }
            }
        }
    }
}


/// Every solution of front `k + 1` has a dominator in front `k` (listed in `f`).
pub proof fn lemma_next_front_has_dominator(t: Seq<Seq<OrderKey>>, k: nat, f: Seq<usize>, x: int)
    requires
        t.len() <= usize::MAX,
        forall|y: usize| #[trigger] f.contains(y) <==> front_set(t, k).contains(y as int),
        front_set(t, k + 1).contains(x),
    ensures
        last_dominator_position(t, f, x, f.len() as int) >= 0,
{
    lemma_last_dominator_position(t, f, x, f.len() as int);
    lemma_front_growth(t, k);
    let rb = ranked_below(t, k);
    if last_dominator_position(t, f, x, f.len() as int) < 0 {
        assert forall|y: int| 0 <= y < t.len() && #[trigger] dom(t, y, x) implies rb.contains(y) by {
            assert(ranked_below(t, k + 1).contains(y));
            if !rb.contains(y) {
                assert(front_set(t, k).contains(y));
                assert(f.contains(y as usize));
                let q = choose|q: int| 0 <= q < f.len() && f[q] == y as usize;
                assert(!dom(t, f[q] as int, x));
            }
        }
        assert(front_set(t, k).contains(x));
    }
}

} // verus!
