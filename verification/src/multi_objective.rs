//! Multi-objective optimization: Pareto dominance, Pareto fronts, non-dominated sorting
//! and NSGA-II survivor selection.
//!
//! Objective values are given as order keys (see `order_key`), so every decision here
//! is the one that the comparison of the underlying values would take.

use vstd::prelude::*;
use crate::order_key::{OrderKey, key_lt, key_less, all_ordered, is_stable_order, stable_order};
use crate::dominance_laws::{law_pareto_front_is_non_dominated_set, law_fronts_partition};
use crate::front_proofs::{
    dominator_count, dominated_list, unsettled_count, lemma_dominator_count_bound, lemma_dominator_count_zero,
    lemma_dominated_list, lemma_unsettled_empty, lemma_unsettled_insert, lemma_unsettled_zero,
    lemma_ranked_below_range, lemma_front_growth, lemma_last_dominator_position, lemma_release,
    lemma_next_front_has_dominator,
};

verus! {

/// A solution in multi-objective space: its decision variables, carried as they are,
/// and the order keys of its objective values.
pub struct Solution<X> {
    /// Decision variables.
    pub x: X,
    /// Objective values, as order keys.
    pub objectives: Vec<OrderKey>,
}

/// Pareto dominance over objective vectors: compared position by position over the
/// shorter of the two, `a` is nowhere worse than `b` and somewhere strictly better.
pub open spec fn dominates_keys(a: Seq<OrderKey>, b: Seq<OrderKey>) -> bool {
    let m = if a.len() <= b.len() { a.len() } else { b.len() };
    &&& forall|k: int| 0 <= k < m ==> !key_lt(#[trigger] b[k], a[k])
    &&& exists|k: int| 0 <= k < m && #[trigger] key_lt(a[k], b[k])
}

/// The objective vectors of a population, in order.
pub open spec fn objective_table<X>(pop: Seq<Solution<X>>) -> Seq<Seq<OrderKey>> {
    pop.map_values(|s: Solution<X>| s.objectives@)
}

/// Whether solution `i` of the table dominates solution `j`.
pub open spec fn dom(t: Seq<Seq<OrderKey>>, i: int, j: int) -> bool {
    dominates_keys(t[i], t[j])
}

/// Whether some solution of the table dominates solution `j`.
pub open spec fn is_dominated(t: Seq<Seq<OrderKey>>, j: int) -> bool {
    exists|i: int| 0 <= i < t.len() && #[trigger] dom(t, i, j)
}

/// A population whose objective values are all ordered and all of one length: the
/// case in which Pareto dominance is a strict partial order.
pub open spec fn is_consistent(t: Seq<Seq<OrderKey>>) -> bool {
    &&& forall|i: int| 0 <= i < t.len() ==> all_ordered(#[trigger] t[i])
    &&& forall|i: int, j: int| 0 <= i < t.len() && 0 <= j < t.len() ==> (#[trigger] t[i]).len() == (#[trigger] t[j]).len()
}

/// Check if solution `a` dominates solution `b` (Pareto dominance): `a` is no worse than
/// `b` in every objective (over the objectives both have) and strictly better in one.
pub fn dominates<X>(a: &Solution<X>, b: &Solution<X>) -> (r: bool)
    ensures
        r == dominates_keys(a.objectives@, b.objectives@),
{
    let m = if a.objectives.len() <= b.objectives.len() { a.objectives.len() } else { b.objectives.len() };
    let mut at_least_one_better = false;
    let mut k: usize = 0;
    while k < m
        invariant
            m == if a.objectives@.len() <= b.objectives@.len() { a.objectives@.len() } else { b.objectives@.len() },
            k <= m,
            forall|l: int| 0 <= l < k ==> !key_lt(#[trigger] b.objectives@[l], a.objectives@[l]),
            at_least_one_better <==> exists|l: int| 0 <= l < k && #[trigger] key_lt(a.objectives@[l], b.objectives@[l]),
        decreases m - k,
    {
        if key_less(b.objectives[k], a.objectives[k]) {
            return false;
        }
        if key_less(a.objectives[k], b.objectives[k]) {
            at_least_one_better = true;
        }
        k += 1;
    }
    at_least_one_better
}


/// Whether solution `i` is eliminated by a scan in index order that has already marked
/// the earlier solutions as `marks` says: some other solution dominates it that is not
/// itself an earlier, already eliminated one.
pub open spec fn eliminated_given(t: Seq<Seq<OrderKey>>, marks: Seq<bool>, i: int) -> bool {
    exists|j: int|
        0 <= j < t.len() && j != i && #[trigger] dom(t, j, i) && !(j < marks.len() && marks[j])
}

/// The elimination marks of the first `k` solutions of the table.
pub open spec fn elimination_marks(t: Seq<Seq<OrderKey>>, k: nat) -> Seq<bool>
    decreases k,
{
    if k == 0 {
        Seq::empty()
    } else {
        let prev = elimination_marks(t, (k - 1) as nat);
        prev.push(eliminated_given(t, prev, k - 1))
    }
}

/// Whether the Pareto-front scan eliminates solution `i`.
pub open spec fn eliminated(t: Seq<Seq<OrderKey>>, i: int) -> bool {
    elimination_marks(t, t.len())[i]
}

/// No objective vector dominates itself.
pub proof fn lemma_dominance_irreflexive(a: Seq<OrderKey>)
    ensures
        !dominates_keys(a, a),
{
}

/// Dominance is asymmetric: two vectors never dominate each other.
pub proof fn lemma_dominance_asymmetric(a: Seq<OrderKey>, b: Seq<OrderKey>)
    ensures
        !(dominates_keys(a, b) && dominates_keys(b, a)),
{
    if dominates_keys(a, b) && dominates_keys(b, a) {
        let m = if a.len() <= b.len() { a.len() } else { b.len() };
        let k = choose|k: int| 0 <= k < m && #[trigger] key_lt(a[k], b[k]);
        assert(!key_lt(a[k], b[k]));
    }
}

pub(crate) proof fn lemma_marks_len(t: Seq<Seq<OrderKey>>, k: nat)
    ensures
        elimination_marks(t, k).len() == k,
    decreases k,
{
    if k > 0 {
        lemma_marks_len(t, (k - 1) as nat);
    }
}

pub(crate) proof fn lemma_marks_prefix(t: Seq<Seq<OrderKey>>, k1: nat, k2: nat, i: int)
    requires
        0 <= i < k1 <= k2,
    ensures
        elimination_marks(t, k1)[i] == elimination_marks(t, k2)[i],
    decreases k2,
{
    lemma_marks_len(t, k1);
    lemma_marks_len(t, k2);
    if k1 < k2 {
        lemma_marks_prefix(t, k1, (k2 - 1) as nat, i);
        lemma_marks_len(t, (k2 - 1) as nat);
    }
}

/// Extract the Pareto front (non-dominated set) from a population: the indices that the
/// elimination scan keeps, in increasing order.
pub fn pareto_front<X>(solutions: &[Solution<X>]) -> (front: Vec<usize>)
    ensures
        forall|a: int, b: int| 0 <= a < b < front.len() ==> front@[a] < front@[b],
        forall|a: int| 0 <= a < front.len() ==> (#[trigger] front@[a]) < solutions.len(),
        forall|i: usize|
            i < solutions.len() ==> (#[trigger] front@.contains(i) <==> !eliminated(objective_table(solutions@), i as int)),
        is_consistent(objective_table(solutions@)) ==> forall|i: usize|
            i < solutions.len() ==> (#[trigger] front@.contains(i) <==> !is_dominated(objective_table(solutions@), i as int)),
{
    let ghost t = objective_table(solutions@);
    let n = solutions.len();
    let mut dominated: Vec<bool> = Vec::new();
    while dominated.len() < n
        invariant
            dominated.len() <= n,
            forall|x: int| 0 <= x < dominated.len() ==> !(#[trigger] dominated@[x]),
        decreases n - dominated.len(),
    {
        dominated.push(false);
    }
    for i in 0..n
        invariant
            n == solutions.len(),
            t == objective_table(solutions@),
            dominated.len() == n,
            forall|x: int| 0 <= x < i ==> #[trigger] dominated@[x] == elimination_marks(t, i as nat)[x],
            forall|x: int| i <= x < n ==> !(#[trigger] dominated@[x]),
    {
        proof {
            lemma_marks_len(t, i as nat);
        }
        let ghost marks = elimination_marks(t, i as nat);
        let mut j: usize = 0;
        let mut found = false;
        while j < n && !found
            invariant
                n == solutions.len(),
                t == objective_table(solutions@),
                i < n,
                j <= n,
                marks == elimination_marks(t, i as nat),
                marks.len() == i,
                dominated.len() == n,
                forall|x: int| 0 <= x < i ==> #[trigger] dominated@[x] == marks[x],
                forall|x: int| i <= x < n ==> !(#[trigger] dominated@[x]),
                found <==> exists|y: int|
                    0 <= y < j && y != i && #[trigger] dom(t, y, i as int) && !(y < marks.len() && marks[y]),
            decreases n - j,
        {
            if j != i && !dominated[j] {
                if dominates(&solutions[j], &solutions[i]) {
                    assert(dom(t, j as int, i as int));
                    found = true;
                }
            }
            j += 1;
        }
        proof {
            if !found {
                assert forall|y: int| 0 <= y < t.len() && y != i && #[trigger] dom(t, y, i as int)
                    implies (y < marks.len() && marks[y]) by {}
            }
            assert(found == eliminated_given(t, marks, i as int));
            lemma_marks_len(t, (i + 1) as nat);
        }
        if found {
            dominated.set(i, true);
        }
        assert forall|x: int| 0 <= x < i + 1 implies #[trigger] dominated@[x] == elimination_marks(t, (i + 1) as nat)[x] by {
            if x < i {
                lemma_marks_prefix(t, i as nat, (i + 1) as nat, x);
            }
        }
    }
    let mut front: Vec<usize> = Vec::new();
    for i in 0..n
        invariant
            n == solutions.len(),
            t == objective_table(solutions@),
            dominated.len() == n,
            forall|x: int| 0 <= x < n ==> #[trigger] dominated@[x] == elimination_marks(t, n as nat)[x],
            forall|a: int, b: int| 0 <= a < b < front.len() ==> front@[a] < front@[b],
            forall|a: int| 0 <= a < front.len() ==> (#[trigger] front@[a]) < i,
            forall|x: usize| x < i ==> (#[trigger] front@.contains(x) <==> !dominated@[x as int]),
    {
        let ghost before = front@;
        if !dominated[i] {
            front.push(i);
        }
        proof {
            assert forall|x: usize| x < i + 1 implies (#[trigger] front@.contains(x) <==> !dominated@[x as int]) by {
                if x < i {
                    if before.contains(x) {
                        let a = choose|a: int| 0 <= a < before.len() && before[a] == x;
                        assert(front@[a] == x);
                    }
                    if front@.contains(x) {
                        let a = choose|a: int| 0 <= a < front.len() && front@[a] == x;
                        if a < before.len() {
                            assert(before[a] == x);
                        }
                    }
                } else {
                    if !dominated@[x as int] {
                        assert(front@[front.len() - 1] == x);
                    }
                }
            }
        }
    }
    assert(t.len() == n);
    proof {
        if is_consistent(t) {
            assert forall|i: usize| i < n implies (#[trigger] front@.contains(i) <==> !is_dominated(t, i as int)) by {
                law_pareto_front_is_non_dominated_set(t, i as int);
            }
        }
    }
    front
}


/// The solutions that become ranked once the solutions in `done` are ranked: those not
/// yet ranked whose every dominator is in `done`.
pub open spec fn front_after(t: Seq<Seq<OrderKey>>, done: Set<int>) -> Set<int> {
    Set::new(
        |j: int|
            0 <= j < t.len() && !done.contains(j) && forall|i: int|
                0 <= i < t.len() && #[trigger] dom(t, i, j) ==> done.contains(i),
    )
}

/// The solutions in the first `k` non-dominated fronts.
pub open spec fn ranked_below(t: Seq<Seq<OrderKey>>, k: nat) -> Set<int>
    decreases k,
{
    if k == 0 {
        Set::empty()
    } else {
        let done = ranked_below(t, (k - 1) as nat);
        done.union(front_after(t, done))
    }
}

/// The `k`-th non-dominated front: front 0 holds the solutions that nothing dominates,
/// front `k + 1` those whose dominators all lie in fronts `0..=k`.
pub open spec fn front_set(t: Seq<Seq<OrderKey>>, k: nat) -> Set<int> {
    front_after(t, ranked_below(t, k))
}

/// The position in `f` of the last solution of `f[..len]` that dominates solution `x`,
/// or -1 if none does.
pub open spec fn last_dominator_position(t: Seq<Seq<OrderKey>>, f: Seq<usize>, x: int, len: int) -> int
    decreases len,
{
    if len <= 0 {
        -1
    } else if dom(t, f[len - 1] as int, x) {
        len - 1
    } else {
        last_dominator_position(t, f, x, len - 1)
    }
}

/// Within the front that follows front `f`, solution `x` is listed before solution `y`:
/// its last dominator in `f` comes earlier, or the same one does and `x < y`.
pub open spec fn listed_before(t: Seq<Seq<OrderKey>>, f: Seq<usize>, x: int, y: int) -> bool {
    let px = last_dominator_position(t, f, x, f.len() as int);
    let py = last_dominator_position(t, f, y, f.len() as int);
    px < py || (px == py && x < y)
}

/// `fronts` lists the first fronts of table `t`: front `k` holds exactly the solutions
/// of `front_set(t, k)`; front 0 lists them in increasing order, each later front in the
/// order of `listed_before` with respect to the front before it; every front but the
/// first is non-empty.
pub open spec fn is_front_prefix(t: Seq<Seq<OrderKey>>, fronts: Seq<Seq<usize>>) -> bool {
    &&& fronts.len() >= 1
    &&& forall|k: int, x: usize|
        0 <= k < fronts.len() ==> (#[trigger] fronts[k].contains(x) <==> front_set(t, k as nat).contains(x as int))
    &&& forall|a: int, b: int| 0 <= a < b < fronts[0].len() ==> fronts[0][a] < fronts[0][b]
    &&& forall|k: int, a: int, b: int|
        1 <= k < fronts.len() && 0 <= a < b < fronts[k].len() ==> listed_before(
            t,
            fronts[k - 1],
            #[trigger] fronts[k][a] as int,
            #[trigger] fronts[k][b] as int,
        )
    &&& forall|k: int| 1 <= k < fronts.len() ==> (#[trigger] fronts[k]).len() > 0
}

/// `fronts` is the outcome of fast non-dominated sorting of table `t`: the first fronts
/// as `is_front_prefix` says, up to the first empty one, which is left out (but for
/// front 0, which is always listed).
pub open spec fn is_front_sequence(t: Seq<Seq<OrderKey>>, fronts: Seq<Seq<usize>>) -> bool {
    &&& is_front_prefix(t, fronts)
    &&& front_set(t, fronts.len() as nat) =~= Set::empty()
}

/// Whether solution `x` is listed in one of the fronts.
pub open spec fn in_some_front(fronts: Seq<Seq<usize>>, x: usize) -> bool {
    exists|k: int| 0 <= k < fronts.len() && #[trigger] fronts[k].contains(x)
}

/// The contents of a list of fronts.
pub open spec fn front_lists(fronts: Seq<Vec<usize>>) -> Seq<Seq<usize>> {
    fronts.map_values(|f: Vec<usize>| f@)
}


/// How far the pairwise pass has got for solution `x` while it compares solution `i`
/// with the solutions before `j`: the solutions among `0..bound` it has compared `x` with.
spec fn pass_bound(i: int, j: int, x: int, n: int) -> int {
    if x < i {
        n
    } else if x == i {
        j
    } else if x < j {
        i + 1
    } else {
        i
    }
}

fn push_into(lists: &mut Vec<Vec<usize>>, at: usize, value: usize)
    requires
        at < old(lists).len(),
    ensures
        final(lists).len() == old(lists).len(),
        final(lists)@[at as int]@ == old(lists)@[at as int]@.push(value),
        forall|x: int| 0 <= x < final(lists).len() && x != at ==> final(lists)@[x] == old(lists)@[x],
{
    let mut list: Vec<usize> = Vec::new();
    lists.set_and_swap(at, &mut list);
    list.push(value);
    lists.set_and_swap(at, &mut list);
}

/// The pairwise pass of fast non-dominated sorting: for each solution, the number of
/// solutions that dominate it, the list of those it dominates, and the solutions that
/// nothing dominates, in increasing order.
fn dominance_tables<X>(solutions: &[Solution<X>]) -> (r: (Vec<usize>, Vec<Vec<usize>>, Vec<usize>))
    ensures
        r.0.len() == solutions.len(),
        r.1.len() == solutions.len(),
        forall|x: int| 0 <= x < solutions.len() ==>
            #[trigger] r.0@[x] == dominator_count(objective_table(solutions@), x, solutions.len() as int),
        forall|x: int| 0 <= x < solutions.len() ==>
            #[trigger] r.1@[x]@ == dominated_list(objective_table(solutions@), x, solutions.len() as int),
        forall|a: int, b: int| 0 <= a < b < r.2.len() ==> r.2@[a] < r.2@[b],
        forall|x: usize| #[trigger] r.2@.contains(x) <==> (x < solutions.len()
            && dominator_count(objective_table(solutions@), x as int, solutions.len() as int) == 0),
{
    let ghost t = objective_table(solutions@);
    let n = solutions.len();
    let mut domination_count: Vec<usize> = Vec::new();
    let mut dominated_set: Vec<Vec<usize>> = Vec::new();
    while domination_count.len() < n
        invariant
            domination_count.len() == dominated_set.len(),
            domination_count.len() <= n,
            forall|x: int| 0 <= x < domination_count.len() ==> #[trigger] domination_count@[x] == 0,
            forall|x: int| 0 <= x < dominated_set.len() ==> (#[trigger] dominated_set@[x])@ == Seq::<usize>::empty(),
        decreases n - domination_count.len(),
    {
        domination_count.push(0);
        dominated_set.push(Vec::new());
    }
    let mut current_front: Vec<usize> = Vec::new();
    for i in 0..n
        invariant
            n == solutions.len(),
            t == objective_table(solutions@),
            domination_count.len() == n,
            dominated_set.len() == n,
            forall|x: int| 0 <= x < n ==>
                #[trigger] domination_count@[x] == dominator_count(t, x, if x < i { n as int } else { i as int }),
            forall|x: int| 0 <= x < n ==>
                #[trigger] dominated_set@[x]@ == dominated_list(t, x, if x < i { n as int } else { i as int }),
            forall|a: int, b: int| 0 <= a < b < current_front.len() ==> current_front@[a] < current_front@[b],
            forall|a: int| 0 <= a < current_front.len() ==> (#[trigger] current_front@[a]) < i,
            forall|x: usize| #[trigger] current_front@.contains(x) <==> (x < i && dominator_count(t, x as int, n as int) == 0),
    {
        proof {
            lemma_dominance_irreflexive(t[i as int]);
        }
        for j in (i + 1)..n
            invariant
                n == solutions.len(),
                t == objective_table(solutions@),
                i < n,
                domination_count.len() == n,
                dominated_set.len() == n,
                forall|x: int| 0 <= x < n ==>
                    #[trigger] domination_count@[x] == dominator_count(t, x, pass_bound(i as int, j as int, x, n as int)),
                forall|x: int| 0 <= x < n ==>
                    #[trigger] dominated_set@[x]@ == dominated_list(t, x, pass_bound(i as int, j as int, x, n as int)),
        {
            proof {
                lemma_dominance_asymmetric(t[i as int], t[j as int]);
                lemma_dominator_count_bound(t, j as int, i as int);
                lemma_dominator_count_bound(t, i as int, j as int);
            }
            if dominates(&solutions[i], &solutions[j]) {
                push_into(&mut dominated_set, i, j);
                let c = domination_count[j];
                domination_count.set(j, c + 1);
            } else if dominates(&solutions[j], &solutions[i]) {
                push_into(&mut dominated_set, j, i);
                let c = domination_count[i];
                domination_count.set(i, c + 1);
            }
        }
        let ghost before = current_front@;
        if domination_count[i] == 0 {
            current_front.push(i);
        }
        proof {
            assert forall|x: usize| #[trigger] current_front@.contains(x) <==> (x < i + 1 && dominator_count(t, x as int, n as int) == 0) by {
                if before.contains(x) {
                    let a = choose|a: int| 0 <= a < before.len() && before[a] == x;
                    assert(current_front@[a] == x);
                }
                if current_front@.contains(x) {
                    let a = choose|a: int| 0 <= a < current_front.len() && current_front@[a] == x;
                    if a < before.len() {
                        assert(before[a] == x);
                    }
                }
                if x == i && dominator_count(t, x as int, n as int) == 0 {
                    assert(current_front@[current_front.len() - 1] == x);
                }
            }
        }
    }
    (domination_count, dominated_set, current_front)
}

/// Fast non-dominated sorting. Returns fronts as vectors of indices: front 0 holds the
/// solutions that no solution dominates, front `k + 1` those whose dominators all lie in
/// fronts `0..=k`, in the order in which the sort releases them.
pub fn fast_non_dominated_sort<X>(solutions: &[Solution<X>]) -> (fronts: Vec<Vec<usize>>)
    ensures
        is_front_sequence(objective_table(solutions@), front_lists(fronts@)),
        is_consistent(objective_table(solutions@)) ==> forall|x: usize|
            x < solutions.len() ==> #[trigger] in_some_front(front_lists(fronts@), x),
{
    let ghost t = objective_table(solutions@);
    let n = solutions.len();
    let (mut domination_count, dominated_set, current_front) = dominance_tables(solutions);
    let mut fronts: Vec<Vec<usize>> = Vec::new();
    fronts.push(current_front);
    proof {
        assert forall|x: int| 0 <= x < n implies #[trigger] domination_count@[x] == unsettled_count(t, x, ranked_below(t, 0), n as int) by {
            lemma_unsettled_empty(t, x, n as int);
        }
        assert forall|x: usize| #[trigger] front_lists(fronts@)[0].contains(x) <==> front_set(t, 0).contains(x as int) by {
            lemma_dominator_count_zero(t, x as int, n as int);
            assert(front_lists(fronts@)[0] == fronts@[0]@);
        }
    }
    let mut front_idx: usize = 0;
    loop
        invariant_except_break
            forall|x: int| 0 <= x < n ==>
                #[trigger] domination_count@[x] == unsettled_count(t, x, ranked_below(t, front_idx as nat), n as int),
        invariant
            n == solutions.len(),
            t == objective_table(solutions@),
            t.len() == n,
            fronts.len() == front_idx + 1,
            domination_count.len() == n,
            dominated_set.len() == n,
            forall|x: int| 0 <= x < n ==> #[trigger] dominated_set@[x]@ == dominated_list(t, x, n as int),
            is_front_prefix(t, front_lists(fronts@)),
        ensures
            is_front_sequence(t, front_lists(fronts@)),
        decreases n - ranked_below(t, front_idx as nat).len(),
    {
        let ghost k = front_idx as nat;
        let ghost f = fronts@[front_idx as int]@;
        let ghost rb = ranked_below(t, k);
        proof {
            assert(front_lists(fronts@)[k as int] == f);
            lemma_front_growth(t, k);
            lemma_ranked_below_range(t, k + 1);
        }
        if fronts[front_idx].is_empty() {
            proof {
                assert(front_set(t, k) =~= Set::empty()) by {
                    let this_set = front_set(t, k);
                    assert forall|x: int| !#[trigger] this_set.contains(x) by {
                        if front_set(t, k).contains(x) {
                            assert(f.contains(x as usize));
                        }
                    }
                }
                assert(ranked_below(t, k + 1) =~= rb);
            }
            break;
        }
        proof {
            // the solutions of front k are listed once each
            assert forall|a: int, b: int| 0 <= a < b < f.len() implies f[a] != f[b] by {
                if k == 0 {
                } else {
                    assert(listed_before(t, front_lists(fronts@)[k - 1], f[a] as int, f[b] as int));
                }
            }
        }
        let mut next_front: Vec<usize> = Vec::new();
        let cur_len = fronts[front_idx].len();
        proof {
            assert forall|x: usize| front_set(t, k + 1).contains(x as int) implies
                last_dominator_position(t, f, x as int, f.len() as int) >= 0 by {
                lemma_next_front_has_dominator(t, k, f, x as int);
            }
        }
        let ghost mut done = rb;
        for p in 0..cur_len
            invariant
                n == solutions.len(),
                t == objective_table(solutions@),
                t.len() == n,
                fronts.len() == front_idx + 1,
                k == front_idx,
                f == fronts@[front_idx as int]@,
                cur_len == f.len(),
                rb == ranked_below(t, k),
                is_front_prefix(t, front_lists(fronts@)),
                front_lists(fronts@)[k as int] == f,
                forall|a: int, b: int| 0 <= a < b < f.len() ==> f[a] != f[b],
                domination_count.len() == n,
                dominated_set.len() == n,
                forall|x: int| 0 <= x < n ==> #[trigger] dominated_set@[x]@ == dominated_list(t, x, n as int),
                forall|y: int| #[trigger] done.contains(y) <==> (rb.contains(y) || exists|q: int|
                    0 <= q < p && f[q] as int == y),
                forall|x: int| 0 <= x < n ==>
                    #[trigger] domination_count@[x] == unsettled_count(t, x, done, n as int),
                forall|x: usize| #[trigger] next_front@.contains(x) <==> (front_set(t, k + 1).contains(x as int)
                    && last_dominator_position(t, f, x as int, f.len() as int) < p),
                forall|a: int, b: int|
                    0 <= a < b < next_front.len() ==> listed_before(t, f, #[trigger] next_front@[a] as int, #[trigger] next_front@[b] as int),
        {
            let i = fronts[front_idx][p];
            proof {
                assert(f.contains(i));
                assert(front_set(t, k).contains(i as int));
                lemma_dominated_list(t, i as int, n as int);
            }
            let dlen = dominated_set[i].len();
            let ghost dl = dominated_list(t, i as int, n as int);
            for q in 0..dlen
                invariant
                    n == solutions.len(),
                    t == objective_table(solutions@),
                    t.len() == n,
                    k == front_idx,
                    f == fronts@[front_idx as int]@,
                    rb == ranked_below(t, k),
                    front_lists(fronts@)[k as int] == f,
                    forall|a: int, b: int| 0 <= a < b < f.len() ==> f[a] != f[b],
                    0 <= p < f.len(),
                    i == f[p as int],
                    i < n,
                    front_set(t, k).contains(i as int),
                    forall|x: usize| #[trigger] f.contains(x) <==> front_set(t, k).contains(x as int),
                    dl == dominated_list(t, i as int, n as int),
                    dlen == dl.len(),
                    forall|a: int, b: int| 0 <= a < b < dl.len() ==> dl[a] < dl[b],
                    forall|a: int| 0 <= a < dl.len() ==> (#[trigger] dl[a]) < n,
                    forall|y: usize| #[trigger] dl.contains(y) <==> (y < n && dom(t, i as int, y as int)),
                    domination_count.len() == n,
                    dominated_set.len() == n,
                    forall|x: int| 0 <= x < n ==> #[trigger] dominated_set@[x]@ == dominated_list(t, x, n as int),
                    forall|y: int| #[trigger] done.contains(y) <==> (rb.contains(y) || exists|q: int|
                        0 <= q < p && f[q] as int == y),
                    !done.contains(i as int),
                    forall|x: int| 0 <= x < n ==>
                        #[trigger] domination_count@[x] == unsettled_count(t, x, done, n as int) - if dl.take(q as int).contains(x as usize) { 1int } else { 0int },
                    forall|x: usize| #[trigger] next_front@.contains(x) <==> (front_set(t, k + 1).contains(x as int)
                        && (last_dominator_position(t, f, x as int, f.len() as int) < p
                            || (last_dominator_position(t, f, x as int, f.len() as int) == p && dl.take(q as int).contains(x)))),
                    forall|a: int, b: int|
                        0 <= a < b < next_front.len() ==> listed_before(t, f, #[trigger] next_front@[a] as int, #[trigger] next_front@[b] as int),
            {
                let j = dominated_set[i][q];
                let ghost before = next_front@;
                let ghost q1: int = q + 1;
                proof {
                    assert(dl[q as int] == j);
                    assert(dl.contains(j));
                    assert(!dl.take(q as int).contains(j)) by {
                        if dl.take(q as int).contains(j) {
                            let a = choose|a: int| 0 <= a < q && dl.take(q as int)[a] == j;
                            assert(dl[a] < dl[q as int]);
                        }
                    }
                    lemma_unsettled_insert(t, j as int, done, i as int, n as int);
                    lemma_unsettled_zero(t, j as int, done.insert(i as int), n as int);
                    lemma_release(t, k, f, p as int, j as int, done);
                    assert forall|x: usize| #[trigger] dl.take(q1).contains(x) <==> (dl.take(q as int).contains(x) || x == j) by {
                        if dl.take(q1).contains(x) {
                            let a = choose|a: int| 0 <= a < q + 1 && dl.take(q1)[a] == x;
                            if a < q {
                                assert(dl.take(q as int)[a] == x);
                            }
                        }
                        if dl.take(q as int).contains(x) {
                            let a = choose|a: int| 0 <= a < q && dl.take(q as int)[a] == x;
                            assert(dl.take(q1)[a] == x);
                        }
                        if x == j {
                            assert(dl.take(q1)[q as int] == x);
                        }
                    }
                }
                let c = domination_count[j];
                domination_count.set(j, c - 1);
                if c - 1 == 0 {
                    next_front.push(j);
                    proof {
                        assert forall|a: int, b: int| 0 <= a < b < next_front.len() implies listed_before(t, f, #[trigger] next_front@[a] as int, #[trigger] next_front@[b] as int) by {
                            if b == next_front.len() - 1 {
                                let y = next_front@[a];
                                assert(before[a] == y);
                                assert(before.contains(y));
                                if last_dominator_position(t, f, y as int, f.len() as int) == p {
                                    assert(dl.take(q as int).contains(y));
                                    let c2 = choose|c2: int| 0 <= c2 < q && dl.take(q as int)[c2] == y;
                                    assert(dl[c2] < dl[q as int]);
                                }
                            }
                        }
                    }
                }
                proof {
                    assert forall|x: usize| #[trigger] next_front@.contains(x) <==> (front_set(t, k + 1).contains(x as int)
                        && (last_dominator_position(t, f, x as int, f.len() as int) < p
                            || (last_dominator_position(t, f, x as int, f.len() as int) == p && dl.take(q1).contains(x)))) by {
                        if x != j {
                            if next_front@.contains(x) {
                                let a = choose|a: int| 0 <= a < next_front.len() && next_front@[a] == x;
                                assert(before[a] == x);
                            }
                            if before.contains(x) {
                                let a = choose|a: int| 0 <= a < before.len() && before[a] == x;
                                assert(next_front@[a] == x);
                            }
                        } else {
                            if before.contains(x) {
                                assert(dl.take(q as int).contains(x) || last_dominator_position(t, f, x as int, f.len() as int) < p);
                                lemma_last_dominator_position(t, f, x as int, f.len() as int);
                                assert(dom(t, f[p as int] as int, x as int));
                            }
                            if c - 1 == 0 {
                                assert(next_front@[next_front.len() - 1] == x);
                            } else if next_front@.contains(x) {
                                let a = choose|a: int| 0 <= a < next_front.len() && next_front@[a] == x;
                                assert(before[a] == x);
                                lemma_last_dominator_position(t, f, x as int, f.len() as int);
                                assert(dom(t, f[p as int] as int, x as int));
                            }
                        }
                    }
                }
            }
            proof {
                assert(dl.take(dlen as int) =~= dl);
                assert forall|x: int| 0 <= x < n implies #[trigger] domination_count@[x] == unsettled_count(t, x, done.insert(i as int), n as int) by {
                    lemma_unsettled_insert(t, x, done, i as int, n as int);
                }
                assert forall|x: usize| #[trigger] next_front@.contains(x) <==> (front_set(t, k + 1).contains(x as int)
                    && last_dominator_position(t, f, x as int, f.len() as int) < p + 1) by {
                    lemma_last_dominator_position(t, f, x as int, f.len() as int);
                    if front_set(t, k + 1).contains(x as int) && last_dominator_position(t, f, x as int, f.len() as int) == p {
                        assert(dl.contains(x));
                    }
                }
                done = done.insert(i as int);
                assert forall|y: int| #[trigger] done.contains(y) <==> (rb.contains(y) || exists|q: int|
                    0 <= q < p + 1 && f[q] as int == y) by {
                    if y == i as int {
                        assert(f[p as int] as int == y);
                    }
                }
            }
        }
        proof {
            assert forall|y: int| #[trigger] done.contains(y) <==> ranked_below(t, k + 1).contains(y) by {
                if done.contains(y) && !rb.contains(y) {
                    let q = choose|q: int| 0 <= q < cur_len && f[q] as int == y;
                    assert(f.contains(f[q]));
                }
                if ranked_below(t, k + 1).contains(y) && !rb.contains(y) {
                    assert(front_set(t, k).contains(y));
                    assert(f.contains(y as usize));
                    let q = choose|q: int| 0 <= q < f.len() && f[q] == y as usize;
                    assert(f[q] as int == y);
                }
            }
            assert(done =~= ranked_below(t, k + 1));
            assert forall|x: usize| #[trigger] next_front@.contains(x) <==> front_set(t, k + 1).contains(x as int) by {
                lemma_last_dominator_position(t, f, x as int, f.len() as int);
            }
        }
        if next_front.is_empty() {
            proof {
                let next_set = front_set(t, k + 1);
                assert forall|x: int| !#[trigger] next_set.contains(x) by {
                    if front_set(t, k + 1).contains(x) {
                        assert(next_front@.contains(x as usize));
                    }
                }
                assert(front_set(t, (fronts.len()) as nat) =~= Set::empty());
            }
            break;
        }
        let ghost old_lists = front_lists(fronts@);
        fronts.push(next_front);
        front_idx += 1;
        proof {
            assert(front_lists(fronts@) =~= old_lists.push(next_front@));
            assert(next_front@.contains(next_front@[0]));
            assert(front_set(t, k).contains(f[0] as int)) by {
                assert(f.contains(f[0]));
            }
            assert(front_set(t, k).len() > 0);
            lemma_ranked_below_range(t, k + 1);
        }
    }
    proof {
        if is_consistent(t) {
            assert forall|x: usize| x < n implies #[trigger] in_some_front(front_lists(fronts@), x) by {
                law_fronts_partition(t, front_lists(fronts@), x);
            }
        }
    }
    fronts
}


/// The total number of solutions listed in `fronts`.
pub open spec fn total_len(fronts: Seq<Seq<usize>>) -> int
    decreases fronts.len(),
{
    if fronts.len() == 0 {
        0
    } else {
        total_len(fronts.drop_last()) + fronts.last().len()
    }
}

/// NSGA-II survivor selection, first step: the number of leading fronts that fit whole
/// into a population of `pop_size`, taken in order while the next one still fits.
pub fn fronts_that_fit(fronts: &Vec<Vec<usize>>, pop_size: usize) -> (count: usize)
    ensures
        count <= fronts.len(),
        total_len(front_lists(fronts@).take(count as int)) <= pop_size,
        count < fronts.len() ==> total_len(front_lists(fronts@).take(count as int)) + fronts@[count as int].len() > pop_size,
{
    let ghost lists = front_lists(fronts@);
    let mut selected: usize = 0;
    let mut i: usize = 0;
    proof {
        assert(lists.take(0) =~= Seq::<Seq<usize>>::empty());
    }
    while i < fronts.len() && fronts[i].len() <= pop_size - selected
        invariant
            lists == front_lists(fronts@),
            i <= fronts.len(),
            selected <= pop_size,
            selected == total_len(lists.take(i as int)),
        decreases fronts.len() - i,
    {
        proof {
            assert(lists.take(i + 1).drop_last() =~= lists.take(i as int));
            assert(lists[i as int] == fronts@[i as int]@);
        }
        selected = selected + fronts[i].len();
        i += 1;
    }
    proof {
        if i < fronts.len() {
            assert(lists[i as int] == fronts@[i as int]@);
        }
    }
    i
}

/// NSGA-II survivor selection, second step: from a front that does not fit whole, the
/// `count` solutions with the largest crowding distances (given as order keys, one per
/// member of the front), ties kept in the order of the front. Sorting two or more
/// distances compares all of them, so they must then all be ordered.
pub fn most_spread(front: &Vec<usize>, distance_keys: &Vec<OrderKey>, count: usize) -> (chosen: Vec<usize>)
    requires
        distance_keys.len() == front.len(),
        front.len() <= 1 || all_ordered(distance_keys@),
    ensures
        chosen.len() == if count <= front.len() { count } else { front.len() },
        exists|order: Seq<usize>|
            is_stable_order(distance_keys@, true, order) && forall|a: int|
                0 <= a < chosen.len() ==> #[trigger] chosen@[a] == front@[order[a] as int],
{
    let order = stable_order(distance_keys, true);
    let take = if count <= front.len() { count } else { front.len() };
    let mut chosen: Vec<usize> = Vec::new();
    for a in 0..take
        invariant
            take <= front.len(),
            is_stable_order(distance_keys@, true, order@),
            distance_keys.len() == front.len(),
            chosen.len() == a,
            forall|b: int| 0 <= b < a ==> #[trigger] chosen@[b] == front@[order@[b] as int],
    {
        assert(order@[a as int] < distance_keys.len());
        chosen.push(front[order[a]]);
    }
    chosen
}


/// For an order that lists each position `0..n` once, the rank of each position: the
/// index at which the order lists it. (Crowding distance reads a front's members in the
/// order of one objective and needs, for each member, its rank in that order.)
pub fn rank_of_positions(order: &Vec<usize>) -> (rank: Vec<usize>)
    requires
        order@.no_duplicates(),
        forall|r: int| 0 <= r < order.len() ==> #[trigger] order@[r] < order.len(),
    ensures
        rank.len() == order.len(),
        forall|r: int| 0 <= r < order.len() ==> #[trigger] rank@[order@[r] as int] == r,
{
    let n = order.len();
    let mut rank: Vec<usize> = Vec::new();
    while rank.len() < n
        invariant
            rank.len() <= n,
        decreases n - rank.len(),
    {
        rank.push(0);
    }
    for r in 0..n
        invariant
            n == order.len(),
            rank.len() == n,
            order@.no_duplicates(),
            forall|q: int| 0 <= q < n ==> #[trigger] order@[q] < n,
            forall|q: int| 0 <= q < r ==> #[trigger] rank@[order@[q] as int] == q,
    {
        let ghost before = rank@;
        rank.set(order[r], r);
        assert forall|q: int| 0 <= q < r + 1 implies #[trigger] rank@[order@[q] as int] == q by {
            if q < r {
                assert(order@[q] != order@[r as int]);
                assert(before[order@[q] as int] == q);
            }
        }
    }
    rank
}


/// Survivor selection keeps exactly `pop_size` solutions when the fronts hold that many:
/// the fronts that fit whole, then as many of the next front as the population still
/// lacks, which that front has since it does not fit whole.
pub proof fn law_survivors_fill_population(fronts: Seq<Seq<usize>>, pop_size: int, count: int)
    requires
        0 <= count < fronts.len(),
        total_len(fronts.take(count)) <= pop_size,
        total_len(fronts.take(count)) + fronts[count].len() > pop_size,
    ensures
        ({
            let remaining = pop_size - total_len(fronts.take(count));
            let taken = if remaining <= fronts[count].len() { remaining } else { fronts[count].len() as int };
            total_len(fronts.take(count)) + taken == pop_size
        }),
{
}

} // verus!
