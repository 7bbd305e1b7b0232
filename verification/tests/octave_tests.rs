use lattice_noise::fixed::FIXED_ONE;
use lattice_noise::noise::coherent_noise;
use lattice_noise::octaves::octave_noise;

const ONE: i64 = 1 << 32;

#[test]
fn octave_single_equals_coherent() {
    // One octave is plain coherent noise: full weight over a weight total
    // of one.
    let xs: Vec<i64> = vec![ONE / 2 + (1 << 28)];
    let ch: Vec<i32> = vec![2];
    assert_eq!(octave_noise(1, &xs, &ch), coherent_noise(&xs, &ch));
}

#[test]
fn octave_deterministic() {
    let xs: Vec<i64> = vec![2 * ONE + ONE / 2, 5 * ONE + (1 << 29)];
    let ch: Vec<i32> = vec![1];
    assert_eq!(octave_noise(6, &xs, &ch), octave_noise(6, &xs, &ch));
}

#[test]
fn octave_golden_values() {
    let xs: Vec<i64> = vec![2 * ONE + ONE / 2, 5 * ONE + (1 << 29)];
    assert_eq!(octave_noise(6, &xs, &vec![1]), 1735748669);
    assert_eq!(octave_noise(20, &vec![ONE + ONE / 2], &vec![]), 2594060819);
}

#[test]
fn octave_three_axes_golden() {
    let xs: Vec<i64> = vec![
        ONE + ONE / 2,
        2 * ONE + ONE / 4,
        3 * ONE + 3 * (ONE / 4),
    ];
    assert_eq!(octave_noise(4, &xs, &vec![7]), 2575895046);
}

#[test]
fn octave_in_unit_range_all_counts() {
    // Normalization keeps every octave count inside the unit range.
    let xs: Vec<i64> = vec![ONE + ONE / 2, 3 * ONE + ONE / 4];
    for count in 1..=20u32 {
        assert!(octave_noise(count, &xs, &vec![3]) < FIXED_ONE);
    }
}

#[test]
fn octave_counts_differ() {
    // More octaves genuinely change the sample (finer detail folds in).
    let xs: Vec<i64> = vec![ONE + ONE / 2, 3 * ONE + ONE / 4];
    let one_octave = octave_noise(1, &xs, &vec![3]);
    let six_octaves = octave_noise(6, &xs, &vec![3]);
    assert_ne!(one_octave, six_octaves);
}
