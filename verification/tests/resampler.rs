use bae_utils::resampler::mono_resampler_fast::MonoResamplerFast;
use bae_utils::resampler::{BlockResampler, Resampler};
use bae_utils::sample::{Sample, SAMPLE_SCALE};

fn track(nums: &[i64]) -> Vec<Sample> {
    nums.iter().map(|&n| Sample::from_num(n)).collect()
}

#[test]
fn identity_rates_reproduce_the_track() {
    let nums: Vec<i64> = (0..8).map(|i| i * 1000 - 3000).collect();
    let mut r = MonoResamplerFast::new(track(&nums), 48_000, 48_000, 0, 0);
    for &n in &nums {
        assert_eq!(r.process().num(), n);
    }
    // Exhausted with no loop: silence from here on, forever.
    assert_eq!(r.process().num(), 0);
    assert_eq!(r.process().num(), 0);
}

#[test]
fn double_rate_skips_every_other_sample() {
    // Track 0.0, 1.0, 2.0, 3.0 at 48 kHz, played out at 24 kHz: the
    // increment is 2, so indices advance 0, 2, 4 (past the end).
    let t = track(&[0, SAMPLE_SCALE, 2 * SAMPLE_SCALE, 3 * SAMPLE_SCALE]);
    let mut r = MonoResamplerFast::new(t, 24_000, 48_000, 0, 0);
    assert_eq!(r.process().num(), 0);
    assert_eq!(r.process().num(), 2 * SAMPLE_SCALE);
    assert_eq!(r.process().num(), 0);
}

#[test]
fn half_rate_interpolates_midpoints() {
    let t = track(&[0, SAMPLE_SCALE]);
    let mut r = MonoResamplerFast::new(t, 48_000, 24_000, 0, 0);
    assert_eq!(r.process().num(), 0);
    assert_eq!(r.process().num(), SAMPLE_SCALE / 2);
    assert_eq!(r.process().num(), SAMPLE_SCALE);
    // The second play-head has run past the end and reads silence, so the
    // tail fades toward zero instead of reading out of range.
    assert_eq!(r.process().num(), SAMPLE_SCALE / 2);
    assert_eq!(r.process().num(), 0);
}

#[test]
fn loop_region_repeats_with_its_period() {
    let nums: Vec<i64> = (0..10).map(|i| i * 10).collect();
    let mut r = MonoResamplerFast::new(track(&nums), 44_100, 44_100, 2, 5);
    let got: Vec<i64> = (0..12).map(|_| r.process().num()).collect();
    // Indices 0..5, then the play-head wraps back to 2, period 3.
    assert_eq!(got, vec![0, 10, 20, 30, 40, 20, 30, 40, 20, 30, 40, 20]);
}

#[test]
fn reversed_loop_points_are_swapped() {
    let nums: Vec<i64> = (0..10).map(|i| i * 10).collect();
    let mut r = MonoResamplerFast::new(track(&nums), 44_100, 44_100, 5, 2);
    let got: Vec<i64> = (0..8).map(|_| r.process().num()).collect();
    assert_eq!(got, vec![0, 10, 20, 30, 40, 20, 30, 40]);
}

#[test]
fn zero_loop_end_disables_looping_even_with_loop_start_set() {
    // The sentinel takes precedence: loop_start > 0 with loop_end == 0 must
    // not be re-enabled by swapping.
    let nums: Vec<i64> = (0..4).map(|i| i * 100).collect();
    let mut r = MonoResamplerFast::new(track(&nums), 8_000, 8_000, 3, 0);
    let got: Vec<i64> = (0..6).map(|_| r.process().num()).collect();
    assert_eq!(got, vec![0, 100, 200, 300, 0, 0]);
}

#[test]
fn block_processing_equals_repeated_single_steps() {
    let nums: Vec<i64> = (0..10).map(|i| (i * i) * 500 - 2000).collect();
    let mut single = MonoResamplerFast::new(track(&nums), 48_000, 32_000, 2, 7);
    let mut block = MonoResamplerFast::new(track(&nums), 48_000, 32_000, 2, 7);
    let mut out = vec![Sample::zero(); 25];
    block.process_block(&mut out);
    for s in &out {
        assert_eq!(s.num(), single.process().num());
    }
    // Resumable: a second batch continues exactly where the first stopped.
    let mut out2 = vec![Sample::zero(); 9];
    block.process_block(&mut out2);
    for s in &out2 {
        assert_eq!(s.num(), single.process().num());
    }
}

#[test]
fn fractional_increment_wraps_each_play_head_independently() {
    // Increment 1.5 over the loop region [1, 3): the play-heads drift apart
    // as they wrap at different steps, and the output settles into a cycle.
    let t = track(&[0, 1200, 2400, 3600]);
    let mut r = MonoResamplerFast::new(t, 2, 3, 1, 3);
    let got: Vec<i64> = (0..10).map(|_| r.process().num()).collect();
    assert_eq!(
        got,
        vec![0, 1200, 1200, 2400, 2400, 1200, 1200, 2400, 2400, 1200]
    );
}

#[test]
fn interpolation_rounds_ties_away_from_zero() {
    let t = track(&[0, 5]);
    let mut r = MonoResamplerFast::new(t, 2, 1, 0, 0);
    // Midpoint of 0 and 5 is 2.5, rounded to 3; past the end the second
    // play-head reads silence, so the midpoint of 5 and 0 is 5 - 3 = 2.
    assert_eq!(r.process().num(), 0);
    assert_eq!(r.process().num(), 3);
    assert_eq!(r.process().num(), 5);
    assert_eq!(r.process().num(), 2);
    assert_eq!(r.process().num(), 0);
}

#[test]
fn empty_block_is_a_no_op() {
    let mut r = MonoResamplerFast::new(track(&[5, 6, 7]), 8_000, 8_000, 0, 0);
    let mut out: Vec<Sample> = Vec::new();
    r.process_block(&mut out);
    assert!(out.is_empty());
    assert_eq!(r.process().num(), 5);
}

#[test]
fn spawn_restarts_playback_from_the_beginning() {
    let nums: Vec<i64> = (0..6).map(|i| i * 7).collect();
    let mut r = MonoResamplerFast::new(track(&nums), 22_050, 22_050, 0, 0);
    assert_eq!(r.process().num(), 0);
    assert_eq!(r.process().num(), 7);
    let mut fresh = r.spawn();
    // The fresh voice plays from the start over the same data…
    assert_eq!(fresh.process().num(), 0);
    assert_eq!(fresh.process().num(), 7);
    // …while the original continues where it was.
    assert_eq!(r.process().num(), 14);
}
