use optimization_algorithms::search_space::expand_bounds;
use optimization_algorithms::conjugate_gradient::{restart_due, CGMethod};
use optimization_algorithms::constraints::Constraint;
use optimization_algorithms::gradient_descent::sample_batch;
use optimization_algorithms::hyperparameter::{AgentConfig, Hyperparameter};
use optimization_algorithms::nelder_mead::{classify_reflection, ReflectionOutcome};
use optimization_algorithms::quasi_newton::push_within_memory;

#[test]
fn test_config_defaults() {
    let hyperparams = vec![
        Hyperparameter { name: "a".to_string(), min: 0.0, max: 1.0, default: 0.5 },
        Hyperparameter { name: "b".to_string(), min: -1.0, max: 1.0, default: 0.0 },
    ];
    let config = AgentConfig::defaults(&hyperparams);
    assert_eq!(config.params.len(), 2);
    assert_eq!(config.params[0].1, 0.5);
    assert_eq!(config.params[1].1, 0.0);
}

#[test]
fn config_defaults_keep_names_and_values_in_order() {
    let hyperparams = vec![
        Hyperparameter { name: "a".to_string(), min: -10.0, max: 10.0, default: 1.0 },
        Hyperparameter { name: "b".to_string(), min: -10.0, max: 10.0, default: 2.0 },
    ];
    let config = AgentConfig::defaults(&hyperparams);
    assert_eq!(config.params[0].0, "a");
    assert_eq!(config.params[1].0, "b");
    assert_eq!(config.to_vector(), vec![1.0, 2.0]);
}

#[test]
fn reflection_outcomes() {
    // best 1, second worst 5
    assert_eq!(classify_reflection(Some(3), Some(1), Some(5)), ReflectionOutcome::AcceptReflection);
    assert_eq!(classify_reflection(Some(1), Some(1), Some(5)), ReflectionOutcome::AcceptReflection);
    assert_eq!(classify_reflection(Some(0), Some(1), Some(5)), ReflectionOutcome::Expand);
    assert_eq!(classify_reflection(Some(5), Some(1), Some(5)), ReflectionOutcome::Contract);
    assert_eq!(classify_reflection(None, Some(1), Some(5)), ReflectionOutcome::Contract);
}

#[test]
fn memory_drops_the_oldest_when_full() {
    let mut history = vec![1, 2, 3];
    push_within_memory(&mut history, 4, 3);
    assert_eq!(history, vec![2, 3, 4]);
    push_within_memory(&mut history, 5, 5);
    assert_eq!(history, vec![2, 3, 4, 5]);
    let mut empty: Vec<u8> = Vec::new();
    push_within_memory(&mut empty, 9, 1);
    assert_eq!(empty, vec![9]);
}

#[test]
fn batches_are_distinct_sample_indices() {
    let mut rng = rand::thread_rng();
    for _ in 0..20 {
        let batch = sample_batch(&mut rng, 10, 5);
        assert_eq!(batch.len(), 5);
        for (a, &i) in batch.iter().enumerate() {
            assert!(i < 10);
            for &j in &batch[a + 1..] {
                assert_ne!(i, j);
            }
        }
    }
    let mut all = sample_batch(&mut rng, 4, 10);
    all.sort();
    assert_eq!(all, vec![0, 1, 2, 3]);
    assert!(sample_batch(&mut rng, 0, 3).is_empty());
}

#[test]
fn restarts_every_period() {
    assert!(!restart_due(0, 4));
    assert!(restart_due(5, 4));
    assert!(!restart_due(5, 5));
    assert!(restart_due(5, 9));
    assert!(restart_due(1, 0));
}

#[test]
fn enums_carry_their_data() {
    let c = Constraint::Inequality { g: "1 - x".to_string() };
    match c.clone() {
        Constraint::Inequality { g } => assert_eq!(g, "1 - x"),
        Constraint::Equality { .. } => panic!("wrong variant"),
    }
    let m = CGMethod::PolakRibiere;
    assert!(m == CGMethod::PolakRibiere);
    assert!(m != CGMethod::FletcherReeves);
}

#[test]
fn batches_are_shuffled() {
    let mut rng = rand::thread_rng();
    let in_order: Vec<usize> = (0..5).collect();
    let mut differs = false;
    for _ in 0..50 {
        if sample_batch(&mut rng, 20, 5) != in_order {
            differs = true;
        }
    }
    assert!(differs);
}

#[test]
fn single_bound_applies_to_every_dimension() {
    assert_eq!(expand_bounds(&vec![-10.0], 3), vec![-10.0, -10.0, -10.0]);
    assert_eq!(expand_bounds(&vec![-1.0, -2.0], 3), vec![-1.0, -2.0]);
    assert_eq!(expand_bounds(&Vec::<f64>::new(), 2), Vec::<f64>::new());
    assert_eq!(expand_bounds(&vec![5.0], 0), Vec::<f64>::new());
}
