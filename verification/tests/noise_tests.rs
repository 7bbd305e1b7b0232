use lattice_noise::fixed::FIXED_ONE;
use lattice_noise::hash::lattice_hash;
use lattice_noise::noise::coherent_noise;

const ONE: i64 = 1 << 32;

#[test]
fn coherent_no_axes_matches_hash() {
    assert_eq!(
        coherent_noise(&vec![], &vec![5, 6]),
        lattice_hash(&vec![5, 6])
    );
    assert_eq!(coherent_noise(&vec![], &vec![]), 0);
}

#[test]
fn coherent_deterministic() {
    let xs: Vec<i64> = vec![3 * ONE + (1 << 30), 7 * ONE + 3 * (1 << 30)];
    let ch: Vec<i32> = vec![4];
    assert_eq!(coherent_noise(&xs, &ch), coherent_noise(&xs, &ch));
}

#[test]
fn coherent_recovers_lattice_points() {
    // A coordinate with no fractional part reproduces the lattice hash of
    // its floor, exactly.
    assert_eq!(coherent_noise(&vec![5 * ONE], &vec![]), lattice_hash(&vec![5]));
    assert_eq!(coherent_noise(&vec![0], &vec![]), lattice_hash(&vec![0]));
    assert_eq!(
        coherent_noise(&vec![-3 * ONE], &vec![]),
        lattice_hash(&vec![-3])
    );
    assert_eq!(
        coherent_noise(&vec![2 * ONE, -4 * ONE], &vec![9]),
        lattice_hash(&vec![9, 2, -4])
    );
}

#[test]
fn coherent_midpoint_between_lattice_hashes() {
    // Halfway along one axis the sample sits strictly between the two
    // bracketing lattice values.
    let mid = coherent_noise(&vec![ONE / 2], &vec![]);
    let h0 = lattice_hash(&vec![0]);
    let h1 = lattice_hash(&vec![1]);
    assert!(h0 < h1);
    assert!(h0 < mid && mid < h1);
    assert_eq!(mid, 2827321865);
}

#[test]
fn coherent_continuous_at_lattice_points() {
    // Approaching a lattice point from either side, the sample closes in on
    // that point's hash: the deviation shrinks with the fractional part.
    let h0 = lattice_hash(&vec![0]);
    let h1 = lattice_hash(&vec![1]);
    let near0_far = coherent_noise(&vec![1 << 20], &vec![]);
    let near0_close = coherent_noise(&vec![1 << 16], &vec![]);
    let near1 = coherent_noise(&vec![ONE - (1 << 20)], &vec![]);
    assert!(near0_far.abs_diff(h0) < 1 << 17);
    assert!(near0_close.abs_diff(h0) < 1 << 13);
    assert!(near0_close.abs_diff(h0) < near0_far.abs_diff(h0));
    assert!(near1.abs_diff(h1) < 1 << 17);
}

#[test]
fn coherent_negative_axis() {
    let v = coherent_noise(&vec![-ONE / 2], &vec![]);
    assert_eq!(v, 1518092860);
    let ha = lattice_hash(&vec![-1]);
    let hb = lattice_hash(&vec![0]);
    let (lo, hi) = if ha <= hb { (ha, hb) } else { (hb, ha) };
    assert!(lo <= v && v <= hi);
}

#[test]
fn coherent_two_axes_golden() {
    let xs: Vec<i64> = vec![3 * ONE + (1 << 30), 7 * ONE + 3 * (1 << 30)];
    assert_eq!(coherent_noise(&xs, &vec![4]), 1670696443);
}

#[test]
fn coherent_three_axes_golden() {
    // Three continuous axes: eight lattice hashes folded by three levels of
    // eased interpolation.
    let xs: Vec<i64> = vec![
        ONE + ONE / 2,
        2 * ONE + ONE / 4,
        3 * ONE + 3 * (ONE / 4),
    ];
    assert_eq!(coherent_noise(&xs, &vec![7]), 2347313857);
}

#[test]
fn coherent_in_unit_range() {
    let points: Vec<Vec<i64>> = vec![
        vec![],
        vec![ONE / 3],
        vec![-7 * ONE + 12345],
        vec![ONE / 2, ONE / 2],
        vec![5 * ONE + 1, 9 * ONE - 1, 13 * ONE + (1 << 31)],
    ];
    for xs in points {
        assert!(coherent_noise(&xs, &vec![1]) < FIXED_ONE);
    }
}

#[test]
fn channel_decorrelation() {
    // Two channels sampled over the same grid give essentially unrelated
    // fields: on a 10 x 10 grid the samples differ everywhere or nearly so.
    let mut differing: u32 = 0;
    let mut total: u32 = 0;
    for gx in 0..10i64 {
        for gy in 0..10i64 {
            let xs: Vec<i64> = vec![(gx << 30) + (1 << 28), (gy << 30) + (1 << 28)];
            let a = coherent_noise(&xs, &vec![1]);
            let b = coherent_noise(&xs, &vec![2]);
            total += 1;
            if a != b {
                differing += 1;
            }
        }
    }
    assert_eq!(total, 100);
    assert!(differing >= 95);
}
