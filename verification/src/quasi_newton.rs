//! Quasi-Newton methods: the limited memory of L-BFGS.

use vstd::prelude::*;

verus! {

/// Record a new correction in a limited-memory history: when the history already holds
/// `capacity` entries (or more), the oldest one is dropped first.
///
/// Dropping from an empty history is impossible, so a zero capacity needs a non-empty
/// history.
pub fn push_within_memory<T>(history: &mut Vec<T>, item: T, capacity: usize)
    requires
        capacity > 0 || old(history).len() > 0,
    ensures
        final(history)@ == if old(history).len() >= capacity {
            old(history)@.drop_first().push(item)
        } else {
            old(history)@.push(item)
        },
        final(history)@.last() == item,
        capacity > 0 && old(history).len() <= capacity ==> final(history).len() <= capacity,
{
    if history.len() >= capacity {
        history.remove(0);
    }
    history.push(item);
}

} // verus!
