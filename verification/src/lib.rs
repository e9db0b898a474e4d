//! Audio utility library.
//!
//! The crate converts between fixed-point PCM words (8/16/24-bit) and a
//! normalized sample representation, resamples one audio channel from one
//! sample rate to another by linear interpolation (with optional looping),
//! and offers small signal helpers such as interpolation, duration
//! conversion and peak normalization.
//!
//! Amplitudes are held in fixed point (see [`sample::Sample`]) and play-head
//! positions as exact fractions, so every function here computes with plain
//! integers and carries an exact contract.

use vstd::prelude::*;

pub mod resampler;
pub mod rounding;
pub mod sample;
pub mod sample_conversion;
pub mod wave;

use crate::rounding::{
    lemma_rdiv_mag, lemma_rdiv_nonneg, lemma_rdiv_scale_round_trip, rdiv, rdiv_i128, rdiv_signed,
};
use crate::sample::{track_view, Sample};
use crate::sample_conversion::clip_to;
use vstd::math::abs;

verus! {

/// Linear interpolation `y - y1 = m * (x - x1)` of a given value, with the
/// result rounded to the nearest integer.
///
/// The interval ends `x1` and `x2` must differ; the bound on the arguments
/// is what keeps every intermediate product inside machine integers.
pub fn lerp(x: i64, x1: i64, x2: i64, y1: i64, y2: i64) -> (y: i64)
    requires
        x1 != x2,
        -0x4000_0000 <= x <= 0x4000_0000,
        -0x4000_0000 <= x1 <= 0x4000_0000,
        -0x4000_0000 <= x2 <= 0x4000_0000,
        -0x4000_0000 <= y1 <= 0x4000_0000,
        -0x4000_0000 <= y2 <= 0x4000_0000,
    ensures
        y == y1 + rdiv_signed((y2 - y1) * (x - x1), x2 - x1),
{
    proof {
        assert(-0x4000_0000_0000_0000 <= (y2 - y1) * (x - x1) <= 0x4000_0000_0000_0000)
            by (nonlinear_arith)
            requires
                -0x8000_0000 <= y2 - y1 <= 0x8000_0000,
                -0x8000_0000 <= x - x1 <= 0x8000_0000,
        ;
    }
    let num: i128 = (y2 as i128 - y1 as i128) * (x as i128 - x1 as i128);
    let q: i128 = if x2 > x1 {
        rdiv_i128(num, x2 as i128 - x1 as i128)
    } else {
        rdiv_i128(-num, x1 as i128 - x2 as i128)
    };
    proof {
        if x2 > x1 {
            lemma_rdiv_mag(num as int, x2 - x1, 0x4000_0000_0000_0000);
        } else {
            lemma_rdiv_mag(-num as int, x1 - x2, 0x4000_0000_0000_0000);
        }
    }
    (y1 as i128 + q) as i64
}

/// The lower end of the clamping range of [`clerp`]: the smaller of the two
/// interval ends.
pub open spec fn range_min(x1: int, x2: int) -> int {
    if x1 <= x2 {
        x1
    } else {
        x2
    }
}

/// The upper end of the clamping range of [`clerp`]: the larger of the two
/// interval ends.
pub open spec fn range_max(x1: int, x2: int) -> int {
    if x1 <= x2 {
        x2
    } else {
        x1
    }
}

/// `x` clamped into the range `[x1, x2]`; if `x1` is greater than `x2` they
/// are swapped.
fn clamp(x: i64, x1: i64, x2: i64) -> (r: i64)
    ensures
        r == clip_to(x as int, range_min(x1 as int, x2 as int), range_max(x1 as int, x2 as int)),
{
    let lo: i64 = if x1 > x2 {
        x2
    } else {
        x1
    };
    let hi: i64 = if x1 > x2 {
        x1
    } else {
        x2
    };
    if x > hi {
        hi
    } else if x < lo {
        lo
    } else {
        x
    }
}

/// Clamped linear interpolation `y - y1 = m * (x - x1)` of a given value.
/// The input `x` is clamped to the range `[x1, x2]`; if `x1` is greater than
/// `x2`, they are swapped.
pub fn clerp(x: i64, x1: i64, x2: i64, y1: i64, y2: i64) -> (y: i64)
    requires
        x1 != x2,
        -0x4000_0000 <= x <= 0x4000_0000,
        -0x4000_0000 <= x1 <= 0x4000_0000,
        -0x4000_0000 <= x2 <= 0x4000_0000,
        -0x4000_0000 <= y1 <= 0x4000_0000,
        -0x4000_0000 <= y2 <= 0x4000_0000,
    ensures
        y == y1 + rdiv_signed(
            (y2 - y1) * (clip_to(x as int, range_min(x1 as int, x2 as int), range_max(x1 as int, x2 as int)) - x1),
            x2 - x1,
        ),
{
    let cx = clamp(x, x1, x2);
    lerp(cx, x1, x2, y1, y2)
}

/// Converts a given sample count at sampling rate `r` to a duration in
/// nanoseconds — `s / r` seconds — rounded to the nearest nanosecond.
pub fn samples_to_seconds(s: u64, r: u32) -> (nanos: u128)
    requires
        r >= 1,
    ensures
        nanos == rdiv(s as int * 1_000_000_000, r as int),
{
    let q: i128 = rdiv_i128((s as i128) * 1_000_000_000, r as i128);
    proof {
        lemma_rdiv_mag((s as int) * 1_000_000_000, r as int, 0x1_0000_0000_0000_0000_0000_0000);
        lemma_rdiv_nonneg((s as int) * 1_000_000_000, r as int);
    }
    q as u128
}

/// Converts the given duration in nanoseconds to a sample count at sampling
/// rate `r` — `d * r` seconds-times-rate — rounded to the nearest sample.
pub fn seconds_to_samples(d: u128, r: u32) -> (s: u64)
    requires
        r >= 1,
        d * r <= 0xFFFF_FFFF_FFFF_FFFF * 1_000_000_000,
    ensures
        s == rdiv(d as int * r as int, 1_000_000_000),
{
    let prod: u128 = d * (r as u128);
    let q: i128 = rdiv_i128(prod as i128, 1_000_000_000);
    proof {
        lemma_rdiv_mag(prod as int, 1_000_000_000, 0xFFFF_FFFF_FFFF_FFFF);
        lemma_rdiv_nonneg(prod as int, 1_000_000_000);
    }
    q as u64
}

/// Duration round trip: converting a sample count to nanoseconds and back
/// at the same rate returns the count exactly, for every rate below the
/// nanosecond resolution.
pub proof fn lemma_duration_round_trip(s: int, r: int)
    requires
        0 <= s,
        1 <= r < 1_000_000_000,
    ensures
        rdiv(rdiv(s * 1_000_000_000, r) * r, 1_000_000_000) == s,
{
    lemma_rdiv_scale_round_trip(s, r, 1_000_000_000);
}

/// The sum of all amplitudes of a track.
pub open spec fn track_sum(s: Seq<int>) -> int
    decreases s.len(),
{
    if s.len() == 0 {
        0
    } else {
        track_sum(s.drop_last()) + s.last()
    }
}

/// The largest absolute deviation of any amplitude of `s` from `dc`.
pub open spec fn track_peak(s: Seq<int>, dc: int) -> int
    decreases s.len(),
{
    if s.len() == 0 {
        0
    } else {
        let dev = abs(s.last() - dc) as int;
        let rest = track_peak(s.drop_last(), dc);
        if dev > rest {
            dev
        } else {
            rest
        }
    }
}

/// The peak bounds every deviation, and is never negative.
proof fn lemma_track_peak_bounds(s: Seq<int>, dc: int, i: int)
    requires
        0 <= i < s.len(),
    ensures
        abs(s[i] - dc) <= track_peak(s, dc),
        track_peak(s, dc) >= 0,
    decreases s.len(),
{
    if i + 1 < s.len() {
        lemma_track_peak_bounds(s.drop_last(), dc, i);
    }
}

/// Normalizes the given audio track to have a peak amplitude of `target`.
///
/// The DC offset — the rounded mean of the samples — is removed first;
/// every sample is then scaled so that the largest absolute deviation maps
/// to `target` exactly. An empty track, and a track that is constant after
/// DC removal (zero peak), are left unchanged rather than divided by zero.
pub fn normalize(target: Sample, t: &mut Vec<Sample>)
    requires
        -0x2000_0000_0000 <= target@ <= 0x2000_0000_0000,
        old(t)@.len() <= 0x100_0000_0000,
        forall|i: int|
            0 <= i < old(t)@.len() ==> -0x2000_0000_0000 <= #[trigger] old(t)@[i]@
                <= 0x2000_0000_0000,
    ensures
        final(t)@.len() == old(t)@.len(),
        ({
            let s = track_view(old(t)@);
            let dc = rdiv(track_sum(s), s.len() as int);
            let peak = track_peak(s, dc);
            if s.len() == 0 || peak == 0 {
                final(t)@ == old(t)@
            } else {
                forall|i: int|
                    0 <= i < s.len() ==> #[trigger] final(t)@[i]@ == rdiv(
                        (s[i] - dc) * target@,
                        peak,
                    )
            }
        }),
{
    let n: usize = t.len();
    if n == 0 {
        return;
    }
    let ghost sv = track_view(old(t)@);
    // Calculate the DC offset.
    let mut sum: i128 = 0;
    let mut i: usize = 0;
    while i < n
        invariant
            0 <= i <= n,
            n == t@.len(),
            t@ == old(t)@,
            sv == track_view(t@),
            forall|k: int| 0 <= k < n ==> -0x2000_0000_0000 <= #[trigger] t@[k]@ <= 0x2000_0000_0000,
            -0x2000_0000_0000 * (i as int) <= sum <= 0x2000_0000_0000 * (i as int),
            sum == track_sum(sv.take(i as int)),
        decreases n - i,
    {
        proof {
            assert(-0x2000_0000_0000 <= t@[i as int]@ <= 0x2000_0000_0000);
            assert(sv[i as int] == t@[i as int]@);
        }
        sum = sum + t[i].num as i128;
        proof {
            assert(sv.take(i + 1).drop_last() =~= sv.take(i as int));
        }
        i = i + 1;
    }
    proof {
        assert(sv.take(n as int) =~= sv);
        lemma_rdiv_mag(sum as int, n as int, 0x2000_0000_0000);
    }
    let dc: i128 = rdiv_i128(sum, n as i128);
    // Find the absolute maximum value after the DC offset is removed.
    let mut peak: i64 = 0;
    let mut j: usize = 0;
    while j < n
        invariant
            0 <= j <= n,
            n == t@.len(),
            t@ == old(t)@,
            sv == track_view(t@),
            forall|k: int| 0 <= k < n ==> -0x2000_0000_0000 <= #[trigger] t@[k]@ <= 0x2000_0000_0000,
            -0x2000_0000_0000 <= dc <= 0x2000_0000_0000,
            dc == rdiv(track_sum(sv), n as int),
            0 <= peak <= 0x4000_0000_0000,
            peak == track_peak(sv.take(j as int), dc as int),
        decreases n - j,
    {
        proof {
            assert(-0x2000_0000_0000 <= t@[j as int]@ <= 0x2000_0000_0000);
            assert(sv[j as int] == t@[j as int]@);
        }
        let dev64: i64 = (t[j].num as i128 - dc) as i64;
        let dev: i64 = if dev64 < 0 {
            -dev64
        } else {
            dev64
        };
        if dev > peak {
            peak = dev;
        }
        proof {
            assert(sv.take(j + 1).drop_last() =~= sv.take(j as int));
        }
        j = j + 1;
    }
    proof {
        assert(sv.take(n as int) =~= sv);
    }
    if peak == 0 {
        return;
    }
    // Normalize the data.
    let mut k: usize = 0;
    while k < n
        invariant
            0 <= k <= n,
            n == t@.len(),
            sv == track_view(old(t)@),
            n == sv.len(),
            forall|m: int| 0 <= m < n ==> -0x2000_0000_0000 <= #[trigger] sv[m] <= 0x2000_0000_0000,
            -0x2000_0000_0000 <= target@ <= 0x2000_0000_0000,
            -0x2000_0000_0000 <= dc <= 0x2000_0000_0000,
            dc == rdiv(track_sum(sv), n as int),
            0 < peak <= 0x4000_0000_0000,
            peak == track_peak(sv, dc as int),
            forall|m: int|
                0 <= m < k ==> #[trigger] t@[m]@ == rdiv((sv[m] - dc) * target@, peak as int),
            forall|m: int| k <= m < n ==> #[trigger] t@[m] == old(t)@[m],
        decreases n - k,
    {
        proof {
            assert(t@[k as int] == old(t)@[k as int]);
            assert(sv[k as int] == t@[k as int]@);
            lemma_track_peak_bounds(sv, dc as int, k as int);
            assert(-peak <= sv[k as int] - dc <= peak);
            assert(-(0x2000_0000_0000 * (peak as int)) <= (sv[k as int] - dc) * (target@)
                <= 0x2000_0000_0000 * (peak as int)) by (nonlinear_arith)
                requires
                    -peak <= sv[k as int] - dc <= peak,
                    -0x2000_0000_0000 <= target@ <= 0x2000_0000_0000,
                    0 < peak,
            ;
            assert(0x2000_0000_0000 * (peak as int) <= 0x8000_0000_0000_0000_0000_0000);
        }
        let a: i128 = (t[k].num as i128 - dc) * (target.num as i128);
        let w: i128 = rdiv_i128(a, peak as i128);
        proof {
            lemma_rdiv_mag(a as int, peak as int, 0x2000_0000_0000);
        }
        t.set(k, Sample::from_num(w as i64));
        k = k + 1;
    }
}

} // verus!
