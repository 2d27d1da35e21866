//! Constraint handling: the kinds of constraints.

use vstd::prelude::*;

verus! {

/// Constraint types.
#[derive(Debug, Clone)]
pub enum Constraint {
    /// Inequality: g(x) <= 0.
    Inequality { g: String },
    /// Equality: h(x) = 0 (approximated as |h(x)| <= epsilon).
    Equality { h: String },
}

} // verus!
