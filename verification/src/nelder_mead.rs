//! Decisions of the Nelder-Mead simplex method (derivative-free optimization).
//!
//! The simplex is ordered with `order_key::stable_order` (best vertex first) and the best
//! vertex at the end is `order_key::first_minimum`; this module decides, after a
//! reflection, which step the method takes next.

use vstd::prelude::*;
use crate::order_key::{OrderKey, key_lt};

verus! {

/// `a <= b` for the values that two keys stand for.
pub open spec fn key_le(a: OrderKey, b: OrderKey) -> bool {
    match (a, b) {
        (Some(x), Some(y)) => x <= y,
        _ => false,
    }
}

/// What the method does with a reflected point.
#[derive(Debug, Clone, Copy, PartialEq, Eq, Structural)]
pub enum ReflectionOutcome {
    /// Replace the worst vertex by the reflected point.
    AcceptReflection,
    /// The reflected point beats the best vertex: try an expansion.
    Expand,
    /// The reflected point is no better than the second worst vertex: try a contraction.
    Contract,
}

/// The step taken after a reflection with value `fr`, given the values of the best and
/// second worst vertices.
pub open spec fn classification(fr: OrderKey, f_best: OrderKey, f_second_worst: OrderKey) -> ReflectionOutcome {
    if key_lt(fr, f_second_worst) && key_le(f_best, fr) {
        ReflectionOutcome::AcceptReflection
    } else if key_lt(fr, f_best) {
        ReflectionOutcome::Expand
    } else {
        ReflectionOutcome::Contract
    }
}

/// Classify a reflected point by its value `fr` against the values of the best and the
/// second worst vertex: accepted when it is better than the second worst and no better
/// than the best, an expansion when it beats the best, a contraction otherwise
/// (unordered values never pass a comparison).
pub fn classify_reflection(fr: OrderKey, f_best: OrderKey, f_second_worst: OrderKey) -> (r: ReflectionOutcome)
    ensures
        r == classification(fr, f_best, f_second_worst),
        (fr, f_best, f_second_worst) matches (Some(vr), Some(vb), Some(vs)) ==> {
            &&& (r == ReflectionOutcome::AcceptReflection <==> vb <= vr && vr < vs)
            &&& (r == ReflectionOutcome::Expand <==> vr < vb)
        },
{
    let below_second = match (fr, f_second_worst) {
        (Some(a), Some(b)) => a < b,
        _ => false,
    };
    let not_below_best = match (fr, f_best) {
        (Some(a), Some(b)) => a >= b,
        _ => false,
    };
    let below_best = match (fr, f_best) {
        (Some(a), Some(b)) => a < b,
        _ => false,
    };
    if below_second && not_below_best {
        ReflectionOutcome::AcceptReflection
    } else if below_best {
        ReflectionOutcome::Expand
    } else {
        ReflectionOutcome::Contract
    }
}


/// `key_le` is the order of the values: both ordered and the first integer no larger.
pub proof fn law_key_le_is_value_order(a: OrderKey, b: OrderKey)
    ensures
        key_le(a, b) <==> (a is Some && b is Some && a->0 <= b->0),
        forall|x: i64, y: i64| key_le(Some(x), Some(y)) <==> x <= y,
{
}

/// For ordered values, the reflected point is accepted exactly when it lies between the
/// best value (inclusive) and the second worst (exclusive), leads to an expansion exactly
/// when it is below the best, and to a contraction otherwise, whatever the signs.
pub proof fn law_reflection_by_values(r: i64, b: i64, s: i64)
    ensures
        classification(Some(r), Some(b), Some(s)) == if b <= r && r < s {
            ReflectionOutcome::AcceptReflection
        } else if r < b {
            ReflectionOutcome::Expand
        } else {
            ReflectionOutcome::Contract
        },
{
}

} // verus!
