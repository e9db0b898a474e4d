use bae_utils::sample::{Sample, SAMPLE_SCALE};
use bae_utils::{clerp, lerp, normalize, samples_to_seconds, seconds_to_samples};

fn track(nums: &[i64]) -> Vec<Sample> {
    nums.iter().map(|&n| Sample::from_num(n)).collect()
}

fn nums(t: &[Sample]) -> Vec<i64> {
    t.iter().map(|s| s.num()).collect()
}

#[test]
fn lerp_hits_exact_points_and_midpoints() {
    assert_eq!(lerp(0, 0, 2, 0, 10), 0);
    assert_eq!(lerp(2, 0, 2, 0, 10), 10);
    assert_eq!(lerp(1, 0, 2, 0, 10), 5);
    // Extrapolation past the interval is allowed.
    assert_eq!(lerp(3, 0, 2, 0, 10), 15);
    assert_eq!(lerp(-1, 0, 2, 0, 10), -5);
}

#[test]
fn lerp_rounds_to_nearest() {
    // 10 / 3 at x == 1 is 3.33…, rounded to 3.
    assert_eq!(lerp(1, 0, 3, 0, 10), 3);
    assert_eq!(lerp(2, 0, 3, 0, 10), 7);
    // A descending x interval works too.
    assert_eq!(lerp(1, 2, 0, 0, 10), 5);
}

#[test]
fn clerp_clamps_the_input() {
    assert_eq!(clerp(5, 0, 2, 0, 10), 10);
    assert_eq!(clerp(-3, 0, 2, 0, 10), 0);
    assert_eq!(clerp(1, 0, 2, 0, 10), 5);
    // Reversed interval ends are swapped before clamping.
    assert_eq!(clerp(5, 2, 0, 0, 10), 0);
}

#[test]
fn duration_conversions_are_inverse() {
    assert_eq!(samples_to_seconds(48_000, 48_000), 1_000_000_000);
    assert_eq!(seconds_to_samples(1_000_000_000, 48_000), 48_000);
    assert_eq!(samples_to_seconds(24_000, 48_000), 500_000_000);
    for s in [0u64, 1, 441, 48_000, 1_234_567] {
        for r in [1u32, 44_100, 48_000, 192_000] {
            let nanos = samples_to_seconds(s, r);
            assert_eq!(seconds_to_samples(nanos, r), s);
        }
    }
}

#[test]
fn samples_to_seconds_rounds_to_nearest_nanosecond() {
    // One sample at 3 Hz is 333,333,333.3… ns.
    assert_eq!(samples_to_seconds(1, 3), 333_333_333);
    assert_eq!(samples_to_seconds(2, 3), 666_666_667);
}

#[test]
fn normalize_scales_peak_to_target() {
    let mut t = track(&[100, 300]);
    normalize(Sample::from_num(SAMPLE_SCALE), &mut t);
    // DC offset 200 removed, peak deviation 100 scaled to full scale.
    assert_eq!(nums(&t), vec![-SAMPLE_SCALE, SAMPLE_SCALE]);
}

#[test]
fn normalize_removes_dc_before_scaling() {
    let mut t = track(&[0, 100, 200]);
    normalize(Sample::from_num(SAMPLE_SCALE), &mut t);
    assert_eq!(nums(&t), vec![-SAMPLE_SCALE, 0, SAMPLE_SCALE]);
}

#[test]
fn normalize_rounds_the_mean() {
    // The mean of 0 and 1 rounds away from zero to 1, so the deviations
    // are -1 and 0.
    let mut t = track(&[0, 1]);
    normalize(Sample::from_num(SAMPLE_SCALE), &mut t);
    assert_eq!(nums(&t), vec![-SAMPLE_SCALE, 0]);
}

#[test]
fn normalize_leaves_constant_tracks_unchanged() {
    // After DC removal the peak is zero; scaling would divide by zero, so
    // the track is left as it is.
    let mut t = track(&[5, 5, 5]);
    normalize(Sample::from_num(SAMPLE_SCALE), &mut t);
    assert_eq!(nums(&t), vec![5, 5, 5]);
}

#[test]
fn normalize_leaves_empty_tracks_unchanged() {
    let mut t: Vec<Sample> = Vec::new();
    normalize(Sample::from_num(SAMPLE_SCALE), &mut t);
    assert!(t.is_empty());
}
