//! Search-space bounds shared by the population-based methods (PSO, NSGA-II).

use vstd::prelude::*;

verus! {

/// Per-dimension bounds from a configuration: a single bound applies to every one of the
/// `dim` dimensions; any other list of bounds is taken as it is.
pub fn expand_bounds<V: Copy>(bounds: &Vec<V>, dim: usize) -> (expanded: Vec<V>)
    ensures
        bounds.len() == 1 ==> expanded.len() == dim && forall|i: int|
            0 <= i < dim ==> #[trigger] expanded@[i] == bounds@[0],
        bounds.len() != 1 ==> expanded@ == bounds@,
{
    let mut expanded: Vec<V> = Vec::new();
    if bounds.len() == 1 {
        let b = bounds[0];
        for i in 0..dim
            invariant
                bounds.len() == 1,
                b == bounds@[0],
                expanded.len() == i,
                forall|j: int| 0 <= j < i ==> #[trigger] expanded@[j] == bounds@[0],
        {
            expanded.push(b);
        }
    } else {
        for i in 0..bounds.len()
            invariant
                expanded.len() == i,
                i <= bounds.len(),
                forall|j: int| 0 <= j < i ==> #[trigger] expanded@[j] == bounds@[j],
        {
            expanded.push(bounds[i]);
        }
        assert(expanded@ =~= bounds@);
    }
    expanded
}

} // verus!
