use optimization_algorithms::order_key::{first_minimum, key_less, stable_order, OrderKey};

fn key(v: f64) -> OrderKey {
    if v.is_nan() {
        return None;
    }
    let v = if v == 0.0 { 0.0 } else { v };
    let bits = v.to_bits() as i64;
    Some(if bits < 0 { bits ^ i64::MAX } else { bits })
}

#[test]
fn keys_compare_as_values() {
    let values = [f64::NEG_INFINITY, -3.5, -1e-300, 0.0, 1e-300, 2.0, 2.5, f64::INFINITY];
    for (i, &a) in values.iter().enumerate() {
        for (j, &b) in values.iter().enumerate() {
            assert_eq!(key_less(key(a), key(b)), i < j);
        }
    }
    assert_eq!(key(-0.0), key(0.0));
    assert!(!key_less(key(f64::NAN), key(1.0)));
    assert!(!key_less(key(1.0), key(f64::NAN)));
}

#[test]
fn stable_order_ascending_keeps_ties_in_index_order() {
    let keys = vec![key(3.0), key(1.0), key(3.0), key(-2.0), key(1.0)];
    assert_eq!(stable_order(&keys, false), vec![3, 1, 4, 0, 2]);
}

#[test]
fn stable_order_descending_keeps_ties_in_index_order() {
    let keys = vec![key(3.0), key(1.0), key(3.0), key(-2.0), key(1.0)];
    assert_eq!(stable_order(&keys, true), vec![0, 2, 1, 4, 3]);
}

#[test]
fn stable_order_of_one_unordered_key() {
    assert_eq!(stable_order(&vec![key(f64::NAN)], false), vec![0]);
    assert_eq!(stable_order(&Vec::new(), true), Vec::<usize>::new());
}

#[test]
fn first_minimum_takes_the_earliest() {
    let keys = vec![key(4.0), key(1.0), key(2.0), key(1.0)];
    assert_eq!(first_minimum(&keys), 1);
    assert_eq!(first_minimum(&vec![key(7.0)]), 0);
}

#[test]
fn ascending_order_starts_at_first_minimum() {
    let keys = vec![key(2.0), key(-1.0), key(5.0), key(-1.0), key(0.0)];
    assert_eq!(stable_order(&keys, false)[0], first_minimum(&keys));
    assert_eq!(first_minimum(&keys), 1);
}
