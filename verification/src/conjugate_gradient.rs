//! Nonlinear conjugate gradient: the choice of method and the restart rule.

use vstd::prelude::*;

verus! {

/// Conjugate gradient method type.
#[derive(Debug, Clone, Copy, PartialEq, Eq, Structural)]
pub enum CGMethod {
    /// Fletcher-Reeves: beta = (g_{k+1}^T g_{k+1}) / (g_k^T g_k)
    FletcherReeves,
    /// Polak-Ribiere: beta = (g_{k+1}^T (g_{k+1} - g_k)) / (g_k^T g_k)
    PolakRibiere,
}

/// Whether iteration `iteration` (counted from 0) ends with a forced restart along the
/// steepest descent direction: every `restart_every` iterations, never when it is 0.
pub fn restart_due(restart_every: usize, iteration: usize) -> (r: bool)
    requires
        iteration < usize::MAX,
    ensures
        r == (restart_every > 0 && (iteration + 1) % (restart_every as int) == 0),
{
    restart_every > 0 && (iteration + 1) % restart_every == 0
}

} // verus!
