use lattice_noise::smoothing::{interpolate, smoothcos, smoothstep, Smoothing};

const ONE: i64 = 1 << 32;
const ONE_U: u64 = 1 << 32;

#[test]
fn smoothing_endpoints() {
    assert_eq!(smoothcos(0), 0);
    assert_eq!(smoothcos(ONE), ONE_U);
    assert_eq!(smoothstep(0), 0);
    assert_eq!(smoothstep(ONE), ONE_U);
}

#[test]
fn smoothing_clamps_outside_unit() {
    assert_eq!(smoothcos(-5), 0);
    assert_eq!(smoothcos(-100 * ONE), 0);
    assert_eq!(smoothcos(ONE + 5), ONE_U);
    assert_eq!(smoothstep(-5), 0);
    assert_eq!(smoothstep(ONE + 5), ONE_U);
    assert_eq!(smoothstep(100 * ONE), ONE_U);
}

#[test]
fn smoothcos_monotone_samples() {
    let mut prev: u64 = 0;
    let mut x: i64 = -(1 << 28);
    while x <= ONE + (1 << 28) {
        let v = smoothcos(x);
        assert!(prev <= v);
        prev = v;
        x += 1 << 24;
    }
    assert_eq!(prev, ONE_U);
}

#[test]
fn smoothstep_monotone_samples() {
    let mut prev: u64 = 0;
    let mut x: i64 = -(1 << 28);
    while x <= ONE + (1 << 28) {
        let v = smoothstep(x);
        assert!(prev <= v);
        prev = v;
        x += 1 << 24;
    }
    assert_eq!(prev, ONE_U);
}

#[test]
fn smoothing_golden_values() {
    // Both kernels pass exactly through one half at the midpoint; at the
    // quarter point they genuinely differ, being distinct curves.
    assert_eq!(smoothcos(ONE / 2), (ONE / 2) as u64);
    assert_eq!(smoothstep(ONE / 2), (ONE / 2) as u64);
    assert_eq!(smoothcos(ONE / 4), 628983398);
    assert_eq!(smoothstep(ONE / 4), 671088640);
}

#[test]
fn interpolate_identity_midpoint() {
    let r = interpolate(
        Smoothing::Identity,
        ONE / 2,
        0,
        ONE,
        1000 * ONE,
        2000 * ONE,
    );
    assert_eq!(r, 1500 * ONE);
}

#[test]
fn interpolate_cosine_golden() {
    let r = interpolate(Smoothing::CosineEase, ONE / 4, 0, ONE, 0, 255 * ONE);
    assert_eq!(r, 160390766490);
}

#[test]
fn interpolate_hits_destinations_at_bounds() {
    for kernel in [
        Smoothing::CosineEase,
        Smoothing::CubicSmoothstep,
        Smoothing::Identity,
    ] {
        assert_eq!(interpolate(kernel, 3 * ONE, 3 * ONE, 9 * ONE, 77, 9999), 77);
        assert_eq!(
            interpolate(kernel, 9 * ONE, 3 * ONE, 9 * ONE, 77, 9999),
            9999
        );
    }
}

#[test]
fn interpolate_descending_interval() {
    // The interval bounds may come in either order; only equality is ruled
    // out.  Halfway down a descending interval is still halfway.
    let r = interpolate(Smoothing::Identity, ONE / 2, ONE, 0, 0, 1000 * ONE);
    assert_eq!(r, 500 * ONE);
    assert_eq!(interpolate(Smoothing::CosineEase, ONE, ONE, 0, 7, 9), 7);
    assert_eq!(interpolate(Smoothing::CosineEase, 0, ONE, 0, 7, 9), 9);
}

#[test]
fn interpolate_brackets_reversed_destinations() {
    // A descending destination pair still brackets the result.
    let mut x: i64 = 0;
    while x <= ONE {
        let r = interpolate(Smoothing::CosineEase, x, 0, ONE, 500, 100);
        assert!(100 <= r && r <= 500);
        x += 1 << 28;
    }
    assert_eq!(interpolate(Smoothing::CosineEase, 0, 0, ONE, 500, 100), 500);
    assert_eq!(interpolate(Smoothing::CosineEase, ONE, 0, ONE, 500, 100), 100);
}
