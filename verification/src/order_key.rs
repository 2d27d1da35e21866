//! Order keys: integers that stand for floating-point values and compare as they do.
//!
//! A key is `Some(k)` for an ordered value and `None` for a value that is unordered
//! with respect to every other (a NaN). Two keys compare as the values they stand for.

use vstd::prelude::*;

verus! {

/// A value's position in the order of values; `None` stands for an unordered value.
pub type OrderKey = Option<i64>;

/// `a < b` for the values that two keys stand for.
pub open spec fn key_lt(a: OrderKey, b: OrderKey) -> bool {
    match (a, b) {
        (Some(x), Some(y)) => x < y,
        _ => false,
    }
}

/// Strict comparison of two keys, as `<` on the values they stand for.
pub fn key_less(a: OrderKey, b: OrderKey) -> (r: bool)
    ensures
        r == key_lt(a, b),
{
    match (a, b) {
        (Some(x), Some(y)) => x < y,
        _ => false,
    }
}


/// The integer of an ordered key (unordered keys never reach a comparison).
pub open spec fn key_value(k: OrderKey) -> int {
    match k {
        Some(x) => x as int,
        None => 0,
    }
}

/// Whether every key of `keys` stands for an ordered value.
pub open spec fn all_ordered(keys: Seq<OrderKey>) -> bool {
    forall|i: int| 0 <= i < keys.len() ==> (#[trigger] keys[i]) is Some
}

/// Whether index `a` is placed before index `b` when indices are sorted by their keys,
/// ascending (or descending when `descending` holds), equal keys keeping index order.
pub open spec fn placed_before(keys: Seq<OrderKey>, descending: bool, a: int, b: int) -> bool {
    let ka = key_value(keys[a]);
    let kb = key_value(keys[b]);
    if descending {
        ka > kb || (ka == kb && a < b)
    } else {
        ka < kb || (ka == kb && a < b)
    }
}

/// `order` lists each index of `keys` once, in the order of a stable sort by key.
pub open spec fn is_stable_order(keys: Seq<OrderKey>, descending: bool, order: Seq<usize>) -> bool {
    &&& order.len() == keys.len()
    &&& forall|i: int| 0 <= i < order.len() ==> (#[trigger] order[i]) < keys.len()
    &&& forall|i: int, j: int|
        0 <= i < j < order.len() ==> placed_before(keys, descending, #[trigger] order[i] as int, #[trigger] order[j] as int)
    &&& forall|x: usize| x < keys.len() ==> #[trigger] order.contains(x)
}

/// Whether a key of value `kp` sorts no later than one of value `kt`.
fn no_later_than(kp: i64, kt: i64, descending: bool) -> (r: bool)
    ensures
        r == if descending { kp >= kt } else { kp <= kt },
{
    if descending { kp >= kt } else { kp <= kt }
}

fn value_of(k: OrderKey) -> (v: i64)
    ensures
        v == key_value(k),
{
    match k {
        Some(x) => x,
        None => 0,
    }
}

/// The indices of `keys` in the order of a stable sort by key (ascending, or descending
/// when `descending` holds): equal keys keep the order of their indices.
///
/// A sort compares every element when there are two or more, so every key must then
/// stand for an ordered value.
pub fn stable_order(keys: &Vec<OrderKey>, descending: bool) -> (order: Vec<usize>)
    requires
        keys.len() <= 1 || all_ordered(keys@),
    ensures
        is_stable_order(keys@, descending, order@),
{
    let n = keys.len();
    let mut order: Vec<usize> = Vec::new();
    for t in 0..n
        invariant
            n == keys.len(),
            order.len() == t,
            forall|i: int| 0 <= i < order.len() ==> (#[trigger] order@[i]) < t,
            forall|i: int, j: int|
                0 <= i < j < order.len() ==> placed_before(keys@, descending, #[trigger] order@[i] as int, #[trigger] order@[j] as int),
            forall|x: usize| x < t ==> #[trigger] order@.contains(x),
    {
        let kt = value_of(keys[t]);
        let mut pos: usize = 0;
        while pos < order.len() && no_later_than(value_of(keys[order[pos]]), kt, descending)
            invariant
                n == keys.len(),
                t < n,
                kt == key_value(keys@[t as int]),
                order.len() == t,
                pos <= order.len(),
                forall|i: int| 0 <= i < order.len() ==> (#[trigger] order@[i]) < t,
                forall|i: int| 0 <= i < pos ==> placed_before(keys@, descending, #[trigger] order@[i] as int, t as int),
            decreases order.len() - pos,
        {
            pos += 1;
        }
        proof {
            assert forall|i: int| pos <= i < order.len() implies placed_before(keys@, descending, t as int, #[trigger] order@[i] as int) by {
                if pos < order.len() {
                    assert(!placed_before(keys@, descending, order@[pos as int] as int, t as int));
                    if i > pos {
                        assert(placed_before(keys@, descending, order@[pos as int] as int, order@[i] as int));
                    }
                }
            }
        }
        let ghost old_order = order@;
        order.insert(pos, t);
        proof {
            assert forall|x: usize| x < t + 1 implies #[trigger] order@.contains(x) by {
                if x < t {
                    assert(old_order.contains(x));
                    let k = choose|k: int| 0 <= k < old_order.len() && old_order[k] == x;
                    if k < pos {
                        assert(order@[k] == x);
                    } else {
                        assert(order@[k + 1] == x);
                    }
                } else {
                    assert(order@[pos as int] == x);
                }
            }
        }
    }
    order
}


/// `best` is the position of the first smallest key.
pub open spec fn is_first_minimum(keys: Seq<OrderKey>, best: int) -> bool {
    &&& 0 <= best < keys.len()
    &&& forall|i: int| 0 <= i < keys.len() ==> key_value(keys[best]) <= key_value(#[trigger] keys[i])
    &&& forall|i: int| 0 <= i < best ==> key_value(keys[best]) < key_value(#[trigger] keys[i])
}

/// The position of the first smallest key, as a scan that keeps the earlier of two
/// equal keys would find it. A scan over two or more keys compares every one of them.
pub fn first_minimum(keys: &Vec<OrderKey>) -> (best: usize)
    requires
        keys.len() >= 1,
        keys.len() == 1 || all_ordered(keys@),
    ensures
        is_first_minimum(keys@, best as int),
{
    let mut best: usize = 0;
    let mut best_value = value_of(keys[0]);
    let mut i: usize = 1;
    while i < keys.len()
        invariant
            1 <= i <= keys.len(),
            best < i,
            best_value == key_value(keys@[best as int]),
            forall|m: int| 0 <= m < i ==> key_value(keys@[best as int]) <= key_value(#[trigger] keys@[m]),
            forall|m: int| 0 <= m < best ==> key_value(keys@[best as int]) < key_value(#[trigger] keys@[m]),
        decreases keys.len() - i,
    {
        let v = value_of(keys[i]);
        if v < best_value {
            best = i;
            best_value = v;
        }
        i += 1;
    }
    best
}


proof fn lemma_sorted_unique(keys: Seq<OrderKey>, descending: bool, s1: Seq<usize>, s2: Seq<usize>)
    requires
        forall|i: int, j: int|
            0 <= i < j < s1.len() ==> placed_before(keys, descending, #[trigger] s1[i] as int, #[trigger] s1[j] as int),
        forall|i: int, j: int|
            0 <= i < j < s2.len() ==> placed_before(keys, descending, #[trigger] s2[i] as int, #[trigger] s2[j] as int),
        forall|x: usize| #[trigger] s1.contains(x) <==> s2.contains(x),
    ensures
        s1 == s2,
    decreases s1.len(),
{
    if s1.len() == 0 {
        if s2.len() > 0 {
            assert(s2.contains(s2[0]));
            assert(s1.contains(s2[0]));
        }
        assert(s1 =~= s2);
    } else {
        assert(s1.contains(s1[0]));
        assert(s2.len() > 0);
        let x1 = s1[0];
        let x2 = s2[0];
        if x1 != x2 {
            assert(s2.contains(x1));
            let p = choose|p: int| 0 <= p < s2.len() && s2[p] == x1;
            assert(placed_before(keys, descending, x2 as int, x1 as int));
            assert(s2.contains(x2));
            assert(s1.contains(x2));
            let q = choose|q: int| 0 <= q < s1.len() && s1[q] == x2;
            assert(placed_before(keys, descending, x1 as int, x2 as int));
        }
        let t1 = s1.drop_first();
        let t2 = s2.drop_first();
        assert forall|x: usize| #[trigger] t1.contains(x) <==> t2.contains(x) by {
            if t1.contains(x) {
                let a = choose|a: int| 0 <= a < t1.len() && t1[a] == x;
                assert(s1[a + 1] == x);
                assert(placed_before(keys, descending, s1[0] as int, s1[a + 1] as int));
                assert(s1.contains(x));
                assert(s2.contains(x));
                let b = choose|b: int| 0 <= b < s2.len() && s2[b] == x;
                assert(b != 0);
                assert(t2[b - 1] == x);
            }
            if t2.contains(x) {
                let a = choose|a: int| 0 <= a < t2.len() && t2[a] == x;
                assert(s2[a + 1] == x);
                assert(placed_before(keys, descending, s2[0] as int, s2[a + 1] as int));
                assert(s2.contains(x));
                assert(s1.contains(x));
                let b = choose|b: int| 0 <= b < s1.len() && s1[b] == x;
                assert(b != 0);
                assert(t1[b - 1] == x);
            }
        }
        assert forall|i: int, j: int| 0 <= i < j < t1.len() implies placed_before(keys, descending, #[trigger] t1[i] as int, #[trigger] t1[j] as int) by {
            assert(t1[i] == s1[i + 1] && t1[j] == s1[j + 1]);
        }
        assert forall|i: int, j: int| 0 <= i < j < t2.len() implies placed_before(keys, descending, #[trigger] t2[i] as int, #[trigger] t2[j] as int) by {
            assert(t2[i] == s2[i + 1] && t2[j] == s2[j + 1]);
        }
        lemma_sorted_unique(keys, descending, t1, t2);
        assert(s1 =~= seq![x1] + t1);
        assert(s2 =~= seq![x2] + t2);
    }
}

/// A stable sort by key has one outcome: two orders that both meet `is_stable_order`
/// for the same keys are the same.
pub proof fn law_stable_order_unique(keys: Seq<OrderKey>, descending: bool, o1: Seq<usize>, o2: Seq<usize>)
    requires
        is_stable_order(keys, descending, o1),
        is_stable_order(keys, descending, o2),
    ensures
        o1 == o2,
{
    assert forall|x: usize| #[trigger] o1.contains(x) <==> o2.contains(x) by {
        if o1.contains(x) {
            let a = choose|a: int| 0 <= a < o1.len() && o1[a] == x;
        }
        if o2.contains(x) {
            let a = choose|a: int| 0 <= a < o2.len() && o2[a] == x;
        }
    }
    lemma_sorted_unique(keys, descending, o1, o2);
}


/// The first index of the ascending stable order is the first smallest key.
pub proof fn law_stable_order_starts_at_first_minimum(keys: Seq<OrderKey>, order: Seq<usize>, best: int)
    requires
        keys.len() <= usize::MAX,
        is_stable_order(keys, false, order),
        is_first_minimum(keys, best),
    ensures
        order[0] == best,
{
    assert(order.contains(best as usize));
    let p = choose|p: int| 0 <= p < order.len() && order[p] == best as usize;
    if p > 0 {
        assert(placed_before(keys, false, order[0] as int, order[p] as int));
        assert(key_value(keys[best]) <= key_value(keys[order[0] as int]));
    }
}


/// Keys compare as the integers they hold, and an unordered key compares with nothing:
/// `key_lt(a, b)` holds exactly when both are ordered and `a`'s integer is below `b`'s.
pub proof fn law_key_lt_is_value_order(a: OrderKey, b: OrderKey)
    ensures
        key_lt(a, b) <==> (a is Some && b is Some && a->0 < b->0),
        forall|x: i64, y: i64| key_lt(Some(x), Some(y)) <==> x < y,
        forall|x: i64| !key_lt(None, Some(x)) && !key_lt(Some(x), None),
        !key_lt(None, None),
{
}

/// An ordered key stands for the integer it holds.
pub proof fn law_key_value_of_ordered(x: i64)
    ensures
        key_value(Some(x)) == x as int,
{
}

/// Ordered keys are placed by their integers: ascending puts the smaller integer first,
/// descending the larger, and equal integers keep index order.
pub proof fn law_placed_before_is_value_order(keys: Seq<OrderKey>, a: int, b: int, x: i64, y: i64)
    requires
        0 <= a < keys.len(),
        0 <= b < keys.len(),
        keys[a] == Some(x),
        keys[b] == Some(y),
    ensures
        placed_before(keys, false, a, b) <==> (x < y || (x == y && a < b)),
        placed_before(keys, true, a, b) <==> (x > y || (x == y && a < b)),
{
}

} // verus!
