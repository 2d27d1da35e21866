# optimization-algorithms

Optimization algorithms (gradient descent, conjugate gradient, BFGS and L-BFGS,
Nelder-Mead, simulated annealing, particle swarm, line searches, penalty and barrier
methods, NSGA-II, hyperparameter tuning), with the decisions they take proved correct
in Verus.

## Layout

- `src/` is the verified library. The algorithms work on floating-point values, which
  Verus does not reason about; what they decide by comparing values is done here on
  *order keys*, integers that compare as the values do (`order_key`).
  - `order_key`: keys, the stable sort of indices by key, the first minimum.
  - `multi_objective`: Pareto dominance, Pareto-front extraction, fast non-dominated
    sorting (exact order of every front), NSGA-II survivor selection.
  - `dominance_laws`: what holds of them (dominance is a strict partial order on
    consistent populations, the Pareto front is the first front, fronts partition the
    population, members of a front are incomparable).
  - `nelder_mead`: the step taken after a reflection.
  - `quasi_newton`: the bounded correction memory of L-BFGS.
  - `gradient_descent`: mini-batch sampling (with `rand`).
  - `conjugate_gradient`, `constraints`, `hyperparameter`, `search_space`: method
    choice and restart rule, constraint kinds, default configurations, bounds.
- `app/` holds the floating-point algorithms themselves, calling the library for each
  decision, and the serde-enabled copies of the library's types.
- `tests/` runs the library on concrete values.
