use lattice_noise::fixed::FIXED_ONE;
use lattice_noise::hash::lattice_hash;

#[test]
fn hash_empty_is_zero() {
    // Both accumulators stay zero, cos(0) is one, and one has no
    // fractional part.
    assert_eq!(lattice_hash(&vec![]), 0);
}

#[test]
fn hash_in_unit_range() {
    let inputs: Vec<Vec<i32>> = vec![
        vec![],
        vec![0],
        vec![1],
        vec![-1],
        vec![i32::MAX, i32::MIN],
        vec![12345, -6789, 42],
        vec![0, 0, 0, 0, 0, 0, 0, 0],
    ];
    for xs in inputs {
        assert!(lattice_hash(&xs) < FIXED_ONE);
    }
}

#[test]
fn hash_deterministic() {
    let xs: Vec<i32> = vec![7, -9, 13];
    assert_eq!(lattice_hash(&xs), lattice_hash(&xs));
    assert_eq!(lattice_hash(&vec![7, -9, 13]), 154880441);
}

#[test]
fn hash_golden_values() {
    assert_eq!(lattice_hash(&vec![0]), 2138774944);
    assert_eq!(lattice_hash(&vec![1]), 3515868787);
    assert_eq!(lattice_hash(&vec![0, 0]), 12140917);
    assert_eq!(lattice_hash(&vec![1, 0]), 1290868667);
    assert_eq!(lattice_hash(&vec![-3]), 690701861);
    assert_eq!(lattice_hash(&vec![-1]), 897410777);
}

#[test]
fn hash_distinct_lattice_points() {
    // Neighboring lattice points carry unrelated values.
    assert_ne!(lattice_hash(&vec![0, 0]), lattice_hash(&vec![1, 0]));
    assert_ne!(lattice_hash(&vec![0]), lattice_hash(&vec![1]));
}

#[test]
fn hash_order_sensitive() {
    // The position index is folded into the mixing, so permutations of the
    // same values hash differently.
    assert_eq!(lattice_hash(&vec![1, 2]), 4124036895);
    assert_eq!(lattice_hash(&vec![2, 1]), 3941476621);
    assert_ne!(lattice_hash(&vec![1, 2]), lattice_hash(&vec![2, 1]));
}
