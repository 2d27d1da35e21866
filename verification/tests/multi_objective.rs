use nalgebra::DVector;
use optimization_algorithms::multi_objective::{
    dominates, fast_non_dominated_sort, fronts_that_fit, most_spread, pareto_front, rank_of_positions, Solution,
};
use optimization_algorithms::order_key::OrderKey;

/// The order key of a floating-point value: equal values share a key, smaller values
/// get smaller keys, NaN gets none.
fn key(v: f64) -> OrderKey {
    if v.is_nan() {
        return None;
    }
    let v = if v == 0.0 { 0.0 } else { v };
    let bits = v.to_bits() as i64;
    Some(if bits < 0 { bits ^ i64::MAX } else { bits })
}

fn sol(x: f64, objectives: &[f64]) -> Solution<DVector<f64>> {
    Solution { x: DVector::from_vec(vec![x]), objectives: objectives.iter().map(|&v| key(v)).collect() }
}

#[test]
fn test_dominance() {
    let a = sol(1.0, &[1.0, 2.0]);
    let b = sol(2.0, &[2.0, 3.0]);
    assert!(dominates(&a, &b));
    assert!(!dominates(&b, &a));
}

#[test]
fn test_non_dominated() {
    let a = sol(1.0, &[1.0, 3.0]);
    let b = sol(2.0, &[3.0, 1.0]);
    assert!(!dominates(&a, &b));
    assert!(!dominates(&b, &a));
}

#[test]
fn test_pareto_front_extraction() {
    let solutions = vec![
        sol(0.0, &[1.0, 4.0]),
        sol(1.0, &[2.0, 2.0]),
        sol(2.0, &[4.0, 1.0]),
        sol(3.0, &[3.0, 3.0]), // dominated
    ];
    let front = pareto_front(&solutions);
    assert_eq!(front.len(), 3);
    assert!(!front.contains(&3), "Dominated solution should not be in Pareto front");
}

#[test]
fn test_fast_non_dominated_sort() {
    let solutions = vec![
        sol(0.0, &[1.0, 4.0]),
        sol(1.0, &[2.0, 2.0]),
        sol(2.0, &[4.0, 1.0]),
        sol(3.0, &[3.0, 3.0]),
    ];
    let fronts = fast_non_dominated_sort(&solutions);
    assert!(fronts[0].len() >= 3);
}

#[test]
fn test_pareto_front_single_solution() {
    let solutions = vec![sol(0.0, &[0.0, 0.0])];
    let front = pareto_front(&solutions);
    assert_eq!(front, vec![0]);
}

#[test]
fn dominance_needs_a_strict_improvement() {
    let a = sol(0.0, &[1.0, 2.0]);
    let b = sol(0.0, &[1.0, 2.0]);
    assert!(!dominates(&a, &b));
    assert!(!dominates(&a, &a));
}

#[test]
fn dominance_compares_the_common_objectives_only() {
    let a = sol(0.0, &[1.0]);
    let b = sol(0.0, &[2.0, -5.0]);
    assert!(dominates(&a, &b));
    assert!(!dominates(&b, &a));
}

#[test]
fn dominance_ignores_unordered_values() {
    let a = sol(0.0, &[f64::NAN, 1.0]);
    let b = sol(0.0, &[0.0, 2.0]);
    assert!(dominates(&a, &b));
    assert!(!dominates(&b, &a));
}

#[test]
fn empty_population_has_one_empty_front() {
    let solutions: Vec<Solution<DVector<f64>>> = Vec::new();
    assert!(pareto_front(&solutions).is_empty());
    let fronts = fast_non_dominated_sort(&solutions);
    assert_eq!(fronts, vec![Vec::<usize>::new()]);
}

#[test]
fn fronts_partition_a_chain() {
    // 0 dominates 1 dominates 2; 3 is incomparable with all of them
    let solutions = vec![
        sol(0.0, &[1.0, 1.0]),
        sol(0.0, &[2.0, 2.0]),
        sol(0.0, &[3.0, 3.0]),
        sol(0.0, &[0.0, 10.0]),
    ];
    let fronts = fast_non_dominated_sort(&solutions);
    assert_eq!(fronts, vec![vec![0, 3], vec![1], vec![2]]);
}

#[test]
fn later_fronts_follow_their_last_dominator() {
    // front 0 = [0, 1]; 2 is dominated only by 1, 3 only by 0, 4 by both
    let solutions = vec![
        sol(0.0, &[0.0, 5.0]),
        sol(0.0, &[5.0, 0.0]),
        sol(0.0, &[6.0, 1.0]),
        sol(0.0, &[1.0, 6.0]),
        sol(0.0, &[5.5, 5.5]),
    ];
    let fronts = fast_non_dominated_sort(&solutions);
    // 3's last dominator is at position 0 of front 0, 2's and 4's at position 1
    assert_eq!(fronts, vec![vec![0, 1], vec![3, 2, 4]]);
}

#[test]
fn pareto_front_is_first_front() {
    let solutions = vec![
        sol(0.0, &[3.0, 1.0]),
        sol(0.0, &[1.0, 3.0]),
        sol(0.0, &[2.0, 2.0]),
        sol(0.0, &[4.0, 4.0]),
        sol(0.0, &[2.0, 5.0]),
    ];
    let front = pareto_front(&solutions);
    let fronts = fast_non_dominated_sort(&solutions);
    assert_eq!(front, fronts[0]);
    assert_eq!(front, vec![0, 1, 2]);
}

#[test]
fn pareto_front_members_do_not_dominate_each_other() {
    let solutions = vec![
        sol(0.0, &[1.0, 4.0]),
        sol(0.0, &[2.0, 2.0]),
        sol(0.0, &[4.0, 1.0]),
        sol(0.0, &[3.0, 3.0]),
        sol(0.0, &[0.5, 9.0]),
    ];
    let front = pareto_front(&solutions);
    for &i in &front {
        for &j in &front {
            assert!(!dominates(&solutions[i], &solutions[j]));
        }
    }
}

#[test]
fn whole_fronts_fill_the_population() {
    let fronts = vec![vec![0, 1], vec![2, 3, 4], vec![5]];
    assert_eq!(fronts_that_fit(&fronts, 5), 2);
    assert_eq!(fronts_that_fit(&fronts, 4), 1);
    assert_eq!(fronts_that_fit(&fronts, 6), 3);
    assert_eq!(fronts_that_fit(&fronts, 1), 0);
}

#[test]
fn most_spread_prefers_large_distances_then_front_order() {
    let front = vec![7, 3, 9, 4];
    let distances = vec![key(1.0), key(f64::INFINITY), key(2.0), key(f64::INFINITY)];
    assert_eq!(most_spread(&front, &distances, 3), vec![3, 4, 9]);
    assert_eq!(most_spread(&front, &distances, 10), vec![3, 4, 9, 7]);
    assert_eq!(most_spread(&front, &distances, 0), Vec::<usize>::new());
}

#[test]
fn rank_of_positions_inverts_an_order() {
    let order = vec![2, 0, 3, 1];
    assert_eq!(rank_of_positions(&order), vec![1, 3, 0, 2]);
}
