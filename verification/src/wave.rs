//! Wave data preparation.
//!
//! The write path validates channel shape, optionally clips, interleaves and
//! encodes per-channel tracks into one PCM payload at a configured bit
//! depth; the read path decodes and deinterleaves an interleaved PCM payload
//! into one track per channel. File framing itself — headers and byte I/O —
//! is a collaborator concern and stays with the caller.

use vstd::prelude::*;
use crate::sample::{Sample, SampleTrack};
use crate::sample_conversion::{
    clip_to, i16_decoded, i16_encoded, i24_decoded, i24_encoded, sample_from_i16,
    sample_from_i24, sample_from_u8, sample_to_i16, sample_to_i24, sample_to_u8, u8_decoded,
    u8_encoded,
};
use vstd::arithmetic::div_mod::{
    lemma_fundamental_div_mod_converse, lemma_fundamental_div_mod_converse_div,
};
use vstd::arithmetic::mul::{
    lemma_mul_is_commutative, lemma_mul_is_distributive_add_other_way,
    lemma_mul_is_distributive_sub_other_way,
};

verus! {

/// Why preparing wave data failed.
#[derive(Clone, Copy, PartialEq, Eq, Structural, Debug)]
pub enum WaveError {
    /// No channels were given.
    NoChannels,
    /// The channels have mismatching lengths.
    MismatchedLengths,
    /// The configured bits per sample is not one of 8, 16 or 24.
    UnsupportedBitDepth,
}

/// One interleaved PCM payload, at one of the supported bit depths.
#[derive(PartialEq, Debug)]
pub enum WaveData {
    /// 8-bit unsigned words.
    Eight(Vec<u8>),
    /// 16-bit signed words.
    Sixteen(Vec<i16>),
    /// 24-bit signed words held in `i32` values.
    TwentyFour(Vec<i32>),
}

/// A sample numerator after optional hard clipping to `[-1, 1]`.
pub open spec fn effective(clip: bool, n: int) -> int {
    if clip {
        clip_to(n, -0x100_0000, 0x100_0000)
    } else {
        n
    }
}

/// Whether every channel has the length of the first.
pub open spec fn channels_same_length(ts: Seq<SampleTrack>) -> bool {
    forall|c: int| 0 <= c < ts.len() ==> #[trigger] ts[c]@.len() == ts[0]@.len()
}

/// The sample at flat interleaved index `j`: channel `j % channels`, frame
/// `j / channels`.
pub open spec fn frame_sample(ts: Seq<SampleTrack>, j: int) -> int
    recommends
        ts.len() > 0,
{
    ts[j % (ts.len() as int)]@[j / (ts.len() as int)]@
}

/// Whether `d` is the interleaved encoding of `ts` under the options
/// `opts`: the payload matches the configured depth, holds one word per
/// channel per frame, and each word encodes the (optionally clipped) sample
/// of its channel and frame.
pub open spec fn wave_data_matches(
    opts: WaveWriteOptions,
    ts: Seq<SampleTrack>,
    d: WaveData,
) -> bool
    recommends
        ts.len() > 0,
{
    let total = ts.len() * ts[0]@.len();
    match d {
        WaveData::Eight(v) => {
            &&& opts.bps == 8
            &&& v@.len() == total
            &&& forall|j: int|
                0 <= j < v@.len() ==> #[trigger] v@[j] == u8_encoded(
                    effective(opts.clip, frame_sample(ts, j)),
                )
        },
        WaveData::Sixteen(v) => {
            &&& opts.bps == 16
            &&& v@.len() == total
            &&& forall|j: int|
                0 <= j < v@.len() ==> #[trigger] v@[j] == i16_encoded(
                    effective(opts.clip, frame_sample(ts, j)),
                )
        },
        WaveData::TwentyFour(v) => {
            &&& opts.bps == 24
            &&& v@.len() == total
            &&& forall|j: int|
                0 <= j < v@.len() ==> #[trigger] v@[j] == i24_encoded(
                    effective(opts.clip, frame_sample(ts, j)),
                )
        },
    }
}

/// Structure representing the options available to configure the format of
/// prepared wave data: the bits per sample, the sampling rate, and whether
/// samples outside `[-1, 1]` are clipped before encoding.
///
/// An invalid bit depth is rejected by [`WaveWriteOptions::bps`] when it is
/// configured, not when data is prepared; a freshly created value has no
/// depth set and prepares no data.
#[derive(Clone, Copy, PartialEq, Eq, Structural, Debug)]
pub struct WaveWriteOptions {
    /// Bits per sample; one of 8, 16 or 24 once configured, 0 when unset.
    pub bps: u16,
    /// The sampling rate in samples per second.
    pub r: u32,
    /// Whether samples are hard-clipped to `[-1, 1]` before encoding.
    pub clip: bool,
}

impl WaveWriteOptions {
    /// Creates a new options value: bit depth unset, rate zero, no clipping.
    pub fn new() -> (w: WaveWriteOptions)
        ensures
            w.bps == 0,
            w.r == 0,
            w.clip == false,
    {
        WaveWriteOptions { bps: 0, r: 0, clip: false }
    }

    /// Sets the bits per sample value.
    ///
    /// Succeeds exactly when `bps` is one of 8, 16, or 24; fails otherwise
    /// and leaves the options unchanged.
    pub fn bps(&mut self, bps: u16) -> (res: Result<(), ()>)
        ensures
            res is Ok <==> (bps == 8 || bps == 16 || bps == 24),
            res is Ok ==> final(self).bps == bps,
            res is Err ==> final(self).bps == old(self).bps,
            final(self).r == old(self).r,
            final(self).clip == old(self).clip,
    {
        if bps == 8 || bps == 16 || bps == 24 {
            self.bps = bps;
            Ok(())
        } else {
            Err(())
        }
    }

    /// Sets the sampling rate.
    pub fn r(&mut self, r: u32)
        ensures
            final(self).r == r,
            final(self).bps == old(self).bps,
            final(self).clip == old(self).clip,
    {
        self.r = r;
    }

    /// Sets whether or not values outside the range `[-1, 1]` will be
    /// clipped.
    pub fn clip(&mut self, clip: bool)
        ensures
            final(self).clip == clip,
            final(self).bps == old(self).bps,
            final(self).r == old(self).r,
    {
        self.clip = clip;
    }

    /// Takes the given tracks — one channel each — and prepares the
    /// interleaved PCM payload that a wave file of these options holds.
    ///
    /// Fails when no channels are given, when the channels have mismatching
    /// lengths, or when the configured bits per sample is unsupported; each
    /// failure is reported exactly when its condition holds, checked in that
    /// order.
    pub fn prepare(&self, tracks: Vec<SampleTrack>) -> (res: Result<WaveData, WaveError>)
        ensures
            (res matches Err(e) && e == WaveError::NoChannels) <==> tracks@.len() == 0,
            (res matches Err(e) && e == WaveError::MismatchedLengths) <==> (tracks@.len() > 0
                && !channels_same_length(tracks@)),
            (res matches Err(e) && e == WaveError::UnsupportedBitDepth) <==> (tracks@.len() > 0
                && channels_same_length(tracks@) && self.bps != 8 && self.bps != 16 && self.bps
                != 24),
            res is Ok <==> (tracks@.len() > 0 && channels_same_length(tracks@) && (self.bps == 8
                || self.bps == 16 || self.bps == 24)),
            res matches Ok(d) ==> wave_data_matches(*self, tracks@, d),
    {
        if tracks.len() == 0 {
            return Err(WaveError::NoChannels);
        }
        let ch: usize = tracks.len();
        let len: usize = tracks[0].len();
        let mut c: usize = 0;
        while c < ch
            invariant
                0 <= c <= ch,
                ch == tracks@.len(),
                len == tracks@[0]@.len(),
                forall|k: int| 0 <= k < c ==> #[trigger] tracks@[k]@.len() == len,
            decreases ch - c,
        {
            if tracks[c].len() != len {
                return Err(WaveError::MismatchedLengths);
            }
            c = c + 1;
        }
        if self.bps == 8 {
            let mut v: Vec<u8> = Vec::new();
            let mut i: usize = 0;
            while i < len
                invariant
                    0 <= i <= len,
                    ch == tracks@.len(),
                    ch >= 1,
                    len == tracks@[0]@.len(),
                    channels_same_length(tracks@),
                    v@.len() == i * ch,
                    forall|j: int|
                        0 <= j < v@.len() ==> #[trigger] v@[j] == u8_encoded(
                            effective(self.clip, frame_sample(tracks@, j)),
                        ),
                decreases len - i,
            {
                let mut c: usize = 0;
                while c < ch
                    invariant
                        0 <= c <= ch,
                        0 <= i < len,
                        ch == tracks@.len(),
                        ch >= 1,
                        len == tracks@[0]@.len(),
                        channels_same_length(tracks@),
                        v@.len() == i * ch + c,
                        forall|j: int|
                            0 <= j < v@.len() ==> #[trigger] v@[j] == u8_encoded(
                                effective(self.clip, frame_sample(tracks@, j)),
                            ),
                    decreases ch - c,
                {
                    proof {
                        lemma_fundamental_div_mod_converse(
                            i * (ch as int) + c,
                            ch as int,
                            i as int,
                            c as int,
                        );
                    }
                    let s = clip_sample(tracks[c][i], self.clip);
                    v.push(sample_to_u8(s));
                    c = c + 1;
                }
                proof {
                    lemma_mul_is_distributive_add_other_way(ch as int, i as int, 1);
                    assert(1 * (ch as int) == ch as int);
                }
                i = i + 1;
            }
            proof {
                lemma_mul_is_commutative(len as int, ch as int);
            }
            Ok(WaveData::Eight(v))
        } else if self.bps == 16 {
            let mut v: Vec<i16> = Vec::new();
            let mut i: usize = 0;
            while i < len
                invariant
                    0 <= i <= len,
                    ch == tracks@.len(),
                    ch >= 1,
                    len == tracks@[0]@.len(),
                    channels_same_length(tracks@),
                    v@.len() == i * ch,
                    forall|j: int|
                        0 <= j < v@.len() ==> #[trigger] v@[j] == i16_encoded(
                            effective(self.clip, frame_sample(tracks@, j)),
                        ),
                decreases len - i,
            {
                let mut c: usize = 0;
                while c < ch
                    invariant
                        0 <= c <= ch,
                        0 <= i < len,
                        ch == tracks@.len(),
                        ch >= 1,
                        len == tracks@[0]@.len(),
                        channels_same_length(tracks@),
                        v@.len() == i * ch + c,
                        forall|j: int|
                            0 <= j < v@.len() ==> #[trigger] v@[j] == i16_encoded(
                                effective(self.clip, frame_sample(tracks@, j)),
                            ),
                    decreases ch - c,
                {
                    proof {
                        lemma_fundamental_div_mod_converse(
                            i * (ch as int) + c,
                            ch as int,
                            i as int,
                            c as int,
                        );
                    }
                    let s = clip_sample(tracks[c][i], self.clip);
                    v.push(sample_to_i16(s));
                    c = c + 1;
                }
                proof {
                    lemma_mul_is_distributive_add_other_way(ch as int, i as int, 1);
                    assert(1 * (ch as int) == ch as int);
                }
                i = i + 1;
            }
            proof {
                lemma_mul_is_commutative(len as int, ch as int);
            }
            Ok(WaveData::Sixteen(v))
        } else if self.bps == 24 {
            let mut v: Vec<i32> = Vec::new();
            let mut i: usize = 0;
            while i < len
                invariant
                    0 <= i <= len,
                    ch == tracks@.len(),
                    ch >= 1,
                    len == tracks@[0]@.len(),
                    channels_same_length(tracks@),
                    v@.len() == i * ch,
                    forall|j: int|
                        0 <= j < v@.len() ==> #[trigger] v@[j] == i24_encoded(
                            effective(self.clip, frame_sample(tracks@, j)),
                        ),
                decreases len - i,
            {
                let mut c: usize = 0;
                while c < ch
                    invariant
                        0 <= c <= ch,
                        0 <= i < len,
                        ch == tracks@.len(),
                        ch >= 1,
                        len == tracks@[0]@.len(),
                        channels_same_length(tracks@),
                        v@.len() == i * ch + c,
                        forall|j: int|
                            0 <= j < v@.len() ==> #[trigger] v@[j] == i24_encoded(
                                effective(self.clip, frame_sample(tracks@, j)),
                            ),
                    decreases ch - c,
                {
                    proof {
                        lemma_fundamental_div_mod_converse(
                            i * (ch as int) + c,
                            ch as int,
                            i as int,
                            c as int,
                        );
                    }
                    let s = clip_sample(tracks[c][i], self.clip);
                    v.push(sample_to_i24(s));
                    c = c + 1;
                }
                proof {
                    lemma_mul_is_distributive_add_other_way(ch as int, i as int, 1);
                    assert(1 * (ch as int) == ch as int);
                }
                i = i + 1;
            }
            proof {
                lemma_mul_is_commutative(len as int, ch as int);
            }
            Ok(WaveData::TwentyFour(v))
        } else {
            Err(WaveError::UnsupportedBitDepth)
        }
    }
}

/// A sample, hard-clipped to `[-1, 1]` when `clip` is set.
fn clip_sample(s: Sample, clip: bool) -> (r: Sample)
    ensures
        r@ == effective(clip, s@),
{
    if clip {
        if s.num > 0x100_0000 {
            Sample::from_num(0x100_0000)
        } else if s.num < -0x100_0000 {
            Sample::from_num(-0x100_0000)
        } else {
            s
        }
    } else {
        s
    }
}

/// How many samples channel `c` receives when `n` interleaved samples are
/// dealt round-robin to `ch` channels.
pub open spec fn channel_length(n: int, ch: int, c: int) -> int
    recommends
        ch >= 1,
        0 <= c,
{
    if n <= c {
        0
    } else {
        (n - c - 1) / ch + 1
    }
}

/// Deinterleaves and decodes 8-bit PCM words into one track per channel:
/// word `i` belongs to channel `i % channel_count`, in order.
pub fn tracks_from_u8(channel_count: u16, d: Vec<u8>) -> (tracks: Vec<SampleTrack>)
    requires
        d@.len() > 0 ==> channel_count > 0,
        d@.len() + channel_count <= usize::MAX,
    ensures
        tracks@.len() == channel_count as int,
        forall|c: int|
            0 <= c < channel_count ==> #[trigger] tracks@[c]@.len() == channel_length(
                d@.len() as int,
                channel_count as int,
                c,
            ),
        forall|c: int, j: int|
            0 <= c < channel_count && 0 <= j < tracks@[c]@.len()
                ==> #[trigger] tracks@[c]@[j]@ == u8_decoded(
                d@[c + j * (channel_count as int)] as int,
            ),
{
    let ch: usize = channel_count as usize;
    let mut tracks: Vec<SampleTrack> = Vec::new();
    let mut c: usize = 0;
    while c < ch
        invariant
            0 <= c <= ch,
            ch == channel_count as int,
            d@.len() + ch <= usize::MAX,
            tracks@.len() == c,
            forall|k: int|
                0 <= k < c ==> #[trigger] tracks@[k]@.len() == channel_length(
                    d@.len() as int,
                    ch as int,
                    k,
                ),
            forall|k: int, j: int|
                0 <= k < c && 0 <= j < tracks@[k]@.len() ==> #[trigger] tracks@[k]@[j]@
                    == u8_decoded(d@[k + j * (ch as int)] as int),
        decreases ch - c,
    {
        let mut t: Vec<Sample> = Vec::new();
        let mut idx: usize = c;
        proof {
            assert(t@.len() * (ch as int) == 0) by (nonlinear_arith)
                requires
                    t@.len() == 0,
            ;
        }
        while idx < d.len()
            invariant
                0 <= c < ch,
                d@.len() + ch <= usize::MAX,
                idx == c + t@.len() * ch,
                t@.len() >= 1 ==> c + (t@.len() - 1) * ch < d@.len(),
                forall|j: int|
                    0 <= j < t@.len() ==> #[trigger] t@[j]@ == u8_decoded(
                        d@[c + j * (ch as int)] as int,
                    ),
            decreases d@.len() + ch - idx,
        {
            t.push(sample_from_u8(d[idx]));
            proof {
                lemma_mul_is_distributive_add_other_way(ch as int, t@.len() - 1, 1);
                assert(1 * (ch as int) == ch as int);
            }
            idx = idx + ch;
        }
        proof {
            lemma_track_gather_length(d@.len() as int, ch as int, c as int, t@.len() as int);
        }
        tracks.push(t);
        c = c + 1;
    }
    tracks
}

/// Deinterleaves and decodes 16-bit PCM words into one track per channel:
/// word `i` belongs to channel `i % channel_count`, in order.
pub fn tracks_from_i16(channel_count: u16, d: Vec<i16>) -> (tracks: Vec<SampleTrack>)
    requires
        d@.len() > 0 ==> channel_count > 0,
        d@.len() + channel_count <= usize::MAX,
    ensures
        tracks@.len() == channel_count as int,
        forall|c: int|
            0 <= c < channel_count ==> #[trigger] tracks@[c]@.len() == channel_length(
                d@.len() as int,
                channel_count as int,
                c,
            ),
        forall|c: int, j: int|
            0 <= c < channel_count && 0 <= j < tracks@[c]@.len()
                ==> #[trigger] tracks@[c]@[j]@ == i16_decoded(
                d@[c + j * (channel_count as int)] as int,
            ),
{
    let ch: usize = channel_count as usize;
    let mut tracks: Vec<SampleTrack> = Vec::new();
    let mut c: usize = 0;
    while c < ch
        invariant
            0 <= c <= ch,
            ch == channel_count as int,
            d@.len() + ch <= usize::MAX,
            tracks@.len() == c,
            forall|k: int|
                0 <= k < c ==> #[trigger] tracks@[k]@.len() == channel_length(
                    d@.len() as int,
                    ch as int,
                    k,
                ),
            forall|k: int, j: int|
                0 <= k < c && 0 <= j < tracks@[k]@.len() ==> #[trigger] tracks@[k]@[j]@
                    == i16_decoded(d@[k + j * (ch as int)] as int),
        decreases ch - c,
    {
        let mut t: Vec<Sample> = Vec::new();
        let mut idx: usize = c;
        proof {
            assert(t@.len() * (ch as int) == 0) by (nonlinear_arith)
                requires
                    t@.len() == 0,
            ;
        }
        while idx < d.len()
            invariant
                0 <= c < ch,
                d@.len() + ch <= usize::MAX,
                idx == c + t@.len() * ch,
                t@.len() >= 1 ==> c + (t@.len() - 1) * ch < d@.len(),
                forall|j: int|
                    0 <= j < t@.len() ==> #[trigger] t@[j]@ == i16_decoded(
                        d@[c + j * (ch as int)] as int,
                    ),
            decreases d@.len() + ch - idx,
        {
            t.push(sample_from_i16(d[idx]));
            proof {
                lemma_mul_is_distributive_add_other_way(ch as int, t@.len() - 1, 1);
                assert(1 * (ch as int) == ch as int);
            }
            idx = idx + ch;
        }
        proof {
            lemma_track_gather_length(d@.len() as int, ch as int, c as int, t@.len() as int);
        }
        tracks.push(t);
        c = c + 1;
    }
    tracks
}

/// Deinterleaves and decodes 24-bit PCM words (held in `i32` values) into
/// one track per channel: word `i` belongs to channel `i % channel_count`.
pub fn tracks_from_i24(channel_count: u16, d: Vec<i32>) -> (tracks: Vec<SampleTrack>)
    requires
        d@.len() > 0 ==> channel_count > 0,
        d@.len() + channel_count <= usize::MAX,
    ensures
        tracks@.len() == channel_count as int,
        forall|c: int|
            0 <= c < channel_count ==> #[trigger] tracks@[c]@.len() == channel_length(
                d@.len() as int,
                channel_count as int,
                c,
            ),
        forall|c: int, j: int|
            0 <= c < channel_count && 0 <= j < tracks@[c]@.len()
                ==> #[trigger] tracks@[c]@[j]@ == i24_decoded(
                d@[c + j * (channel_count as int)] as int,
            ),
{
    let ch: usize = channel_count as usize;
    let mut tracks: Vec<SampleTrack> = Vec::new();
    let mut c: usize = 0;
    while c < ch
        invariant
            0 <= c <= ch,
            ch == channel_count as int,
            d@.len() + ch <= usize::MAX,
            tracks@.len() == c,
            forall|k: int|
                0 <= k < c ==> #[trigger] tracks@[k]@.len() == channel_length(
                    d@.len() as int,
                    ch as int,
                    k,
                ),
            forall|k: int, j: int|
                0 <= k < c && 0 <= j < tracks@[k]@.len() ==> #[trigger] tracks@[k]@[j]@
                    == i24_decoded(d@[k + j * (ch as int)] as int),
        decreases ch - c,
    {
        let mut t: Vec<Sample> = Vec::new();
        let mut idx: usize = c;
        proof {
            assert(t@.len() * (ch as int) == 0) by (nonlinear_arith)
                requires
                    t@.len() == 0,
            ;
        }
        while idx < d.len()
            invariant
                0 <= c < ch,
                d@.len() + ch <= usize::MAX,
                idx == c + t@.len() * ch,
                t@.len() >= 1 ==> c + (t@.len() - 1) * ch < d@.len(),
                forall|j: int|
                    0 <= j < t@.len() ==> #[trigger] t@[j]@ == i24_decoded(
                        d@[c + j * (ch as int)] as int,
                    ),
            decreases d@.len() + ch - idx,
        {
            t.push(sample_from_i24(d[idx]));
            proof {
                lemma_mul_is_distributive_add_other_way(ch as int, t@.len() - 1, 1);
                assert(1 * (ch as int) == ch as int);
            }
            idx = idx + ch;
        }
        proof {
            lemma_track_gather_length(d@.len() as int, ch as int, c as int, t@.len() as int);
        }
        tracks.push(t);
        c = c + 1;
    }
    tracks
}

/// A gathering loop that stopped with `c + ln * ch` at or past `n`, having
/// read `c + (ln - 1) * ch` inside, collected exactly the samples of
/// channel `c`.
proof fn lemma_track_gather_length(n: int, ch: int, c: int, ln: int)
    requires
        ch >= 1,
        0 <= c,
        0 <= ln,
        c + ln * ch >= n,
        ln >= 1 ==> c + (ln - 1) * ch < n,
        ln == 0 ==> c >= n,
    ensures
        ln == channel_length(n, ch, c),
{
    if ln == 0 {
    } else {
        lemma_mul_is_distributive_sub_other_way(ch, ln, ln - 1);
        assert(1 * ch == ch);
        let r = n - c - 1 - (ln - 1) * ch;
        lemma_fundamental_div_mod_converse_div(n - c - 1, ch, ln - 1, r);
    }
}

} // verus!
