//! Laws of Pareto dominance, Pareto fronts and non-dominated sorting.

use vstd::prelude::*;
use crate::order_key::{OrderKey, key_lt, all_ordered};
use crate::multi_objective::{
    dominates_keys, dom, is_dominated, is_consistent, eliminated, eliminated_given, elimination_marks,
    lemma_marks_len, lemma_marks_prefix, lemma_dominance_irreflexive, ranked_below, front_set, front_after,
    is_front_sequence,
};
use crate::front_proofs::{dominator_count, lemma_ranked_below_monotone, lemma_front_growth};

verus! {

/// Dominance among vectors of ordered values of one length is transitive.
pub proof fn lemma_dominance_transitive(a: Seq<OrderKey>, b: Seq<OrderKey>, c: Seq<OrderKey>)
    requires
        all_ordered(a),
        all_ordered(b),
        all_ordered(c),
        a.len() == b.len(),
        b.len() == c.len(),
        dominates_keys(a, b),
        dominates_keys(b, c),
    ensures
        dominates_keys(a, c),
{
    assert forall|k: int| 0 <= k < a.len() implies !key_lt(#[trigger] c[k], a[k]) by {
        assert(!key_lt(b[k], a[k]));
        assert(!key_lt(c[k], b[k]));
        assert(a[k] is Some && b[k] is Some && c[k] is Some);
    }
    let k = choose|k: int| 0 <= k < a.len() && #[trigger] key_lt(a[k], b[k]);
    assert(!key_lt(c[k], b[k]));
    assert(c[k] is Some);
    assert(key_lt(a[k], c[k]));
}

proof fn lemma_table_transitive(t: Seq<Seq<OrderKey>>, x: int, y: int, z: int)
    requires
        is_consistent(t),
        0 <= x < t.len(),
        0 <= y < t.len(),
        0 <= z < t.len(),
        dom(t, x, y),
        dom(t, y, z),
    ensures
        dom(t, x, z),
{
    assert(all_ordered(t[x]) && all_ordered(t[y]) && all_ordered(t[z]));
    assert(t[x].len() == t[y].len() && t[y].len() == t[z].len());
    lemma_dominance_transitive(t[x], t[y], t[z]);
}

proof fn lemma_count_monotone(t: Seq<Seq<OrderKey>>, a: int, b: int, hi: int)
    requires
        forall|y: int| 0 <= y < hi && #[trigger] dom(t, y, a) ==> dom(t, y, b),
    ensures
        dominator_count(t, a, hi) <= dominator_count(t, b, hi),
    decreases hi,
{
    if hi > 0 {
        lemma_count_monotone(t, a, b, hi - 1);
    }
}

proof fn lemma_count_strict(t: Seq<Seq<OrderKey>>, a: int, b: int, hi: int, w: int)
    requires
        forall|y: int| 0 <= y < hi && #[trigger] dom(t, y, a) ==> dom(t, y, b),
        0 <= w < hi,
        dom(t, w, b),
        !dom(t, w, a),
    ensures
        dominator_count(t, a, hi) < dominator_count(t, b, hi),
    decreases hi,
{
    if w < hi - 1 {
        lemma_count_strict(t, a, b, hi - 1, w);
    } else {
        lemma_count_monotone(t, a, b, hi - 1);
    }
}

/// In a consistent table a dominator of `j` has fewer dominators than `j`.
proof fn lemma_dominator_has_fewer(t: Seq<Seq<OrderKey>>, y: int, j: int)
    requires
        is_consistent(t),
        0 <= y < t.len(),
        0 <= j < t.len(),
        dom(t, y, j),
    ensures
        dominator_count(t, y, t.len() as int) < dominator_count(t, j, t.len() as int),
{
    assert forall|z: int| 0 <= z < t.len() && #[trigger] dom(t, z, y) implies dom(t, z, j) by {
        lemma_table_transitive(t, z, y, j);
    }
    lemma_dominance_irreflexive(t[y]);
    lemma_count_strict(t, y, j, t.len() as int, y);
}

proof fn lemma_eliminated_unfold(t: Seq<Seq<OrderKey>>, i: int)
    requires
        0 <= i < t.len(),
    ensures
        eliminated(t, i) == eliminated_given(t, elimination_marks(t, i as nat), i),
        elimination_marks(t, i as nat).len() == i,
        forall|j: int| 0 <= j < i ==> #[trigger] elimination_marks(t, i as nat)[j] == eliminated(t, j),
{
    lemma_marks_len(t, i as nat);
    lemma_marks_prefix(t, (i + 1) as nat, t.len(), i);
    assert forall|j: int| 0 <= j < i implies #[trigger] elimination_marks(t, i as nat)[j] == eliminated(t, j) by {
        lemma_marks_prefix(t, i as nat, t.len(), j);
    }
}

/// No solution that the Pareto-front scan keeps dominates another one it keeps.
pub proof fn law_pareto_front_members_incomparable(t: Seq<Seq<OrderKey>>, i: int, j: int)
    requires
        0 <= i < t.len(),
        0 <= j < t.len(),
        !eliminated(t, i),
        !eliminated(t, j),
    ensures
        !dom(t, i, j),
{
    lemma_eliminated_unfold(t, j);
    lemma_dominance_irreflexive(t[i]);
    if dom(t, i, j) {
        let marks = elimination_marks(t, j as nat);
        assert(!(i < marks.len() && marks[i]));
        assert(eliminated_given(t, marks, j));
    }
}

proof fn lemma_dominated_is_eliminated(t: Seq<Seq<OrderKey>>, i: int, j: int)
    requires
        is_consistent(t),
        0 <= i < t.len(),
        0 <= j < t.len(),
        dom(t, j, i),
    ensures
        eliminated(t, i),
    decreases dominator_count(t, j, t.len() as int),
{
    lemma_eliminated_unfold(t, i);
    lemma_dominance_irreflexive(t[i]);
    let marks = elimination_marks(t, i as nat);
    if !(j < i && eliminated(t, j)) {
        assert(!(j < marks.len() && marks[j]));
        assert(eliminated_given(t, marks, i));
    } else {
        lemma_eliminated_unfold(t, j);
        let mj = elimination_marks(t, j as nat);
        let w = choose|w: int| 0 <= w < t.len() && w != j && #[trigger] dom(t, w, j) && !(w < mj.len() && mj[w]);
        lemma_table_transitive(t, w, j, i);
        lemma_dominator_has_fewer(t, w, j);
        lemma_dominated_is_eliminated(t, i, w);
    }
}

/// In a consistent population the Pareto-front scan eliminates exactly the dominated
/// solutions: the Pareto front is the set of non-dominated solutions.
pub proof fn law_pareto_front_is_non_dominated_set(t: Seq<Seq<OrderKey>>, i: int)
    requires
        is_consistent(t),
        0 <= i < t.len(),
    ensures
        eliminated(t, i) <==> is_dominated(t, i),
{
    lemma_eliminated_unfold(t, i);
    if eliminated(t, i) {
        let marks = elimination_marks(t, i as nat);
        let w = choose|w: int| 0 <= w < t.len() && w != i && #[trigger] dom(t, w, i) && !(w < marks.len() && marks[w]);
        assert(dom(t, w, i));
    }
    if is_dominated(t, i) {
        let w = choose|w: int| 0 <= w < t.len() && #[trigger] dom(t, w, i);
        lemma_dominated_is_eliminated(t, i, w);
    }
}

/// The first non-dominated front holds exactly the non-dominated solutions.
pub proof fn law_first_front_is_non_dominated_set(t: Seq<Seq<OrderKey>>, i: int)
    requires
        0 <= i < t.len(),
    ensures
        front_set(t, 0).contains(i) <==> !is_dominated(t, i),
{
    assert(ranked_below(t, 0) =~= Set::empty());
    if is_dominated(t, i) {
        let w = choose|w: int| 0 <= w < t.len() && #[trigger] dom(t, w, i);
        assert(!ranked_below(t, 0).contains(w));
    }
}

/// In a consistent population the Pareto front that the scan extracts is the first front
/// of non-dominated sorting.
pub proof fn law_pareto_front_is_first_front(t: Seq<Seq<OrderKey>>, i: int)
    requires
        is_consistent(t),
        0 <= i < t.len(),
    ensures
        !eliminated(t, i) <==> front_set(t, 0).contains(i),
{
    law_pareto_front_is_non_dominated_set(t, i);
    law_first_front_is_non_dominated_set(t, i);
}

/// Distinct fronts share no solution.
pub proof fn law_fronts_disjoint(t: Seq<Seq<OrderKey>>, k1: nat, k2: nat, x: int)
    requires
        k1 < k2,
    ensures
        !(front_set(t, k1).contains(x) && front_set(t, k2).contains(x)),
{
    lemma_front_growth(t, k1);
    lemma_ranked_below_monotone(t, k1 + 1, k2);
}

/// Within one front no solution dominates another.
pub proof fn law_front_members_incomparable(t: Seq<Seq<OrderKey>>, k: nat, x: int, y: int)
    requires
        front_set(t, k).contains(x),
        front_set(t, k).contains(y),
    ensures
        !dom(t, x, y),
{
}

/// Every solution of a front after the first is dominated by a solution of the front before.
pub proof fn law_front_has_dominator_in_previous(t: Seq<Seq<OrderKey>>, k: nat, x: int)
    requires
        front_set(t, k + 1).contains(x),
    ensures
        exists|y: int| front_set(t, k).contains(y) && #[trigger] dom(t, y, x),
{
    lemma_front_growth(t, k);
    let rb = ranked_below(t, k);
    if !(exists|y: int| front_set(t, k).contains(y) && #[trigger] dom(t, y, x)) {
        assert forall|y: int| 0 <= y < t.len() && #[trigger] dom(t, y, x) implies rb.contains(y) by {
            assert(ranked_below(t, k + 1).contains(y));
        }
        assert(front_set(t, k).contains(x));
    }
}

proof fn lemma_ranked_by_count(t: Seq<Seq<OrderKey>>, x: int)
    requires
        is_consistent(t),
        0 <= x < t.len(),
    ensures
        ranked_below(t, dominator_count(t, x, t.len() as int) + 1).contains(x),
    decreases dominator_count(t, x, t.len() as int),
{
    let c = dominator_count(t, x, t.len() as int);
    assert forall|y: int| 0 <= y < t.len() && #[trigger] dom(t, y, x) implies ranked_below(t, c).contains(y) by {
        lemma_dominator_has_fewer(t, y, x);
        lemma_ranked_by_count(t, y);
        lemma_ranked_below_monotone(t, dominator_count(t, y, t.len() as int) + 1, c);
    }
    lemma_front_growth(t, c);
    if !ranked_below(t, c).contains(x) {
        assert(front_after(t, ranked_below(t, c)).contains(x));
    }
}

proof fn lemma_ranked_stable(t: Seq<Seq<OrderKey>>, l: nat, m: nat)
    requires
        front_set(t, l) =~= Set::empty(),
    ensures
        ranked_below(t, l + m) == ranked_below(t, l),
    decreases m,
{
    if m > 0 {
        lemma_ranked_stable(t, l, (m - 1) as nat);
        lemma_front_growth(t, (l + m - 1) as nat);
        assert(ranked_below(t, l + m) =~= ranked_below(t, l));
    }
}

proof fn lemma_ranked_in_some_front(t: Seq<Seq<OrderKey>>, l: nat, x: int)
    requires
        ranked_below(t, l).contains(x),
    ensures
        exists|k: nat| k < l && #[trigger] front_set(t, k).contains(x),
    decreases l,
{
    let prev = (l - 1) as nat;
    if ranked_below(t, prev).contains(x) {
        lemma_ranked_in_some_front(t, prev, x);
    } else {
        assert(front_set(t, prev).contains(x));
    }
}

/// In a consistent population the fronts of non-dominated sorting cover every solution:
/// each solution lies in exactly one listed front.
pub proof fn law_fronts_partition(t: Seq<Seq<OrderKey>>, fronts: Seq<Seq<usize>>, x: usize)
    requires
        is_consistent(t),
        is_front_sequence(t, fronts),
        x < t.len(),
    ensures
        exists|k: int| 0 <= k < fronts.len() && #[trigger] fronts[k].contains(x),
        forall|k1: int, k2: int|
            0 <= k1 < fronts.len() && 0 <= k2 < fronts.len() && #[trigger] fronts[k1].contains(x)
                && #[trigger] fronts[k2].contains(x) ==> k1 == k2,
{
    let l = fronts.len() as nat;
    let c = dominator_count(t, x as int, t.len() as int);
    lemma_ranked_by_count(t, x as int);
    lemma_ranked_stable(t, l, c + 1);
    lemma_ranked_below_monotone(t, c + 1, l + c + 1);
    lemma_ranked_in_some_front(t, l, x as int);
    let k = choose|k: nat| k < l && #[trigger] front_set(t, k).contains(x as int);
    assert(fronts[k as int].contains(x));
    assert forall|k1: int, k2: int|
        0 <= k1 < fronts.len() && 0 <= k2 < fronts.len() && #[trigger] fronts[k1].contains(x)
            && #[trigger] fronts[k2].contains(x) implies k1 == k2 by {
        if k1 < k2 {
            law_fronts_disjoint(t, k1 as nat, k2 as nat, x as int);
        } else if k2 < k1 {
            law_fronts_disjoint(t, k2 as nat, k1 as nat, x as int);
        }
    }
}


/// Pareto dominance in terms of the values: over the positions both vectors have, `a`
/// dominates `b` exactly when no value of `b` is below the value of `a` at the same
/// position and, at some position (any one, not a particular one), the value of `a` is
/// below that of `b`. Unordered values are below nothing and nothing is below them.
pub proof fn law_dominance_by_values(a: Seq<OrderKey>, b: Seq<OrderKey>)
    ensures
        dominates_keys(a, b) <==> ({
            let m = if a.len() <= b.len() { a.len() } else { b.len() };
            &&& forall|k: int| 0 <= k < m ==> !(#[trigger] b[k] matches Some(y) && a[k] matches Some(x) && y < x)
            &&& exists|k: int| 0 <= k < m && (#[trigger] a[k] matches Some(x) && b[k] matches Some(y) && x < y)
        }),
{
    let m = if a.len() <= b.len() { a.len() } else { b.len() };
    assert forall|k: int| 0 <= k < m implies (key_lt(b[k], a[k]) <==> (#[trigger] b[k] matches Some(y) && a[k] matches Some(x) && y < x)) by {}
    assert forall|k: int| 0 <= k < m implies (key_lt(a[k], b[k]) <==> (#[trigger] a[k] matches Some(x) && b[k] matches Some(y) && x < y)) by {}
    if dominates_keys(a, b) {
        let k = choose|k: int| 0 <= k < m && #[trigger] key_lt(a[k], b[k]);
        assert(a[k] matches Some(x) && b[k] matches Some(y) && x < y);
    }
    if exists|k: int| 0 <= k < m && (#[trigger] a[k] matches Some(x) && b[k] matches Some(y) && x < y) {
        let k = choose|k: int| 0 <= k < m && (#[trigger] a[k] matches Some(x) && b[k] matches Some(y) && x < y);
        assert(key_lt(a[k], b[k]));
    }
}

/// A strict improvement at any one common position, with no position worse, makes
/// dominance hold, wherever that position is.
pub proof fn law_dominance_from_one_improvement(a: Seq<OrderKey>, b: Seq<OrderKey>, k0: int)
    requires
        0 <= k0 < a.len(),
        0 <= k0 < b.len(),
        a[k0] matches Some(x) && b[k0] matches Some(y) && x < y,
        forall|k: int| 0 <= k < a.len() && 0 <= k < b.len() ==> !(#[trigger] b[k] matches Some(y) && a[k] matches Some(x) && y < x),
    ensures
        dominates_keys(a, b),
{
    law_dominance_by_values(a, b);
}

} // verus!
