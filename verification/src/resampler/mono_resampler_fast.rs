//! MonoResamplerFast.
//!
//! Resamples the given monophonic audio signal from its source sampling rate
//! to a given sampling rate, with some extra features such as looping.
//!
//! This resampler is implemented with linear interpolation to easily enable
//! fast resampling.

use vstd::prelude::*;
use super::{
    initial_state, lemma_initial_state_wf, lemma_restarted_wf, lemma_step_wf, valid_setup,
    BlockResampler, PlaybackState, Resampler,
};
use crate::rounding::{lemma_div_ge, lemma_rdiv_between, rdiv_i128};
use crate::sample::{track_view, Sample};
use vstd::arithmetic::mul::lemma_mul_inequality;

verus! {

/// Struct tracking all of the data required for resampling.
///
/// Play-head positions are kept as exact fractions over the output rate —
/// `pos1 / rate_out` input samples — so that index arithmetic never drifts:
/// every step adds `rate_in` to both numerators.
pub struct MonoResamplerFast {
    data: Vec<Sample>,
    pos1: u64,
    pos2: u64,
    rate_in: u64,
    rate_out: u64,
    loop_start: usize,
    loop_end: usize,
}

impl Resampler for MonoResamplerFast {
    closed spec fn model(&self) -> PlaybackState {
        PlaybackState {
            data: track_view(self.data@),
            pos1: self.pos1 as int,
            pos2: self.pos2 as int,
            rate_in: self.rate_in as int,
            rate_out: self.rate_out as int,
            loop_start: self.loop_start as int,
            loop_end: self.loop_end as int,
        }
    }

    fn new(
        data: Vec<Sample>,
        output_sample_rate: u32,
        input_sample_rate: u32,
        loop_start: usize,
        loop_end: usize,
    ) -> (r: Self) {
        let swap: bool = loop_end != 0 && loop_end < loop_start;
        let ls: usize = if swap {
            loop_end
        } else {
            loop_start
        };
        let le: usize = if swap {
            loop_start
        } else {
            loop_end
        };
        let r = MonoResamplerFast {
            data,
            pos1: 0,
            pos2: input_sample_rate as u64,
            rate_in: input_sample_rate as u64,
            rate_out: output_sample_rate as u64,
            loop_start: ls,
            loop_end: le,
        };
        proof {
            lemma_initial_state_wf(
                track_view(r.data@),
                output_sample_rate as int,
                input_sample_rate as int,
                loop_start as int,
                loop_end as int,
            );
        }
        r
    }

    fn process(&mut self) -> (s: Sample) {
        let ghost pre = self.model();
        let len: usize = self.data.len();
        let i1: u64 = self.pos1 / self.rate_out;
        if i1 >= len as u64 && self.loop_end == 0 {
            // Playback has run past the end and there is no looping: emit
            // silence and do not advance.
            return Sample::zero();
        }
        proof {
            if pre.loop_end != 0 {
                lemma_div_ge(pre.pos1, pre.rate_out, pre.loop_end);
            } else {
                lemma_div_ge(pre.pos1, pre.rate_out, pre.data.len() as int);
            }
        }
        // Sample values for interpolation; the second play-head may have run
        // past the end of the data, in which case it reads silence.
        let x1: i64 = self.data[i1 as usize].num;
        let i2: u64 = self.pos2 / self.rate_out;
        let x2: i64 = if i2 >= len as u64 {
            0
        } else {
            self.data[i2 as usize].num
        };
        // Interpolate by the fractional part of the first play-head.
        let rem: u64 = self.pos1 % self.rate_out;
        let diff: i128 = x2 as i128 - x1 as i128;
        proof {
            assert((rem as int) * (diff as int) <= 0x1_0000_0000_0000_0000_0000_0000
                && -0x1_0000_0000_0000_0000_0000_0000 <= (rem as int) * (diff as int))
                by (nonlinear_arith)
                requires
                    0 <= rem <= 0xFFFF_FFFF,
                    -0x1_0000_0000_0000_0000 <= diff <= 0x1_0000_0000_0000_0000,
            ;
        }
        let q: i128 = rdiv_i128((rem as i128) * diff, self.rate_out as i128);
        proof {
            lemma_rdiv_between(rem as int, diff as int, pre.rate_out);
        }
        let y: i64 = (x1 as i128 + q) as i64;
        // Advance both play-heads by the increment.
        proof {
            if pre.loop_end != 0 {
                assert(pre.loop_end * pre.rate_out <= 0xFFFF_FFFE_0000_0001) by (nonlinear_arith)
                    requires
                        0 <= pre.loop_end <= 0xFFFF_FFFF,
                        0 <= pre.rate_out <= 0xFFFF_FFFF,
                ;
            } else {
                assert(pre.data.len() * pre.rate_out <= 0xFFFF_FFFE_0000_0001) by (nonlinear_arith)
                    requires
                        0 <= pre.data.len() <= 0xFFFF_FFFF,
                        0 <= pre.rate_out <= 0xFFFF_FFFF,
                ;
            }
        }
        self.pos1 = self.pos1 + self.rate_in;
        self.pos2 = self.pos2 + self.rate_in;
        // If looping is enabled, check whether the play-heads reached the
        // end of the loop region and pull them back by one loop length.
        if self.loop_end != 0 {
            proof {
                assert((pre.loop_end - pre.loop_start) * pre.rate_out
                    <= 0xFFFF_FFFE_0000_0001) by (nonlinear_arith)
                    requires
                        0 <= pre.loop_end - pre.loop_start <= 0xFFFF_FFFF,
                        0 <= pre.rate_out <= 0xFFFF_FFFF,
                ;
                lemma_mul_inequality(pre.loop_end - pre.loop_start, pre.loop_end, pre.rate_out);
            }
            let span: u64 = ((self.loop_end - self.loop_start) as u64) * self.rate_out;
            if self.pos1 / self.rate_out >= self.loop_end as u64 {
                proof {
                    lemma_div_ge(self.pos1 as int, pre.rate_out, pre.loop_end);
                }
                self.pos1 = self.pos1 - span;
            }
            if self.pos2 / self.rate_out >= self.loop_end as u64 {
                proof {
                    lemma_div_ge(self.pos2 as int, pre.rate_out, pre.loop_end);
                }
                self.pos2 = self.pos2 - span;
            }
        }
        proof {
            lemma_step_wf(pre);
            assert(self.model() == pre.step());
        }
        Sample::from_num(y)
    }
}

impl BlockResampler for MonoResamplerFast {
    fn process_block(&mut self, out: &mut Vec<Sample>) {
        let ghost m0 = self.model();
        let n: usize = out.len();
        let mut k: usize = 0;
        while k < n
            invariant
                k <= n,
                out@.len() == n,
                self.model().wf(),
                self.model() == m0.steps(k as nat),
                forall|i: int| 0 <= i < k ==> out@[i]@ == m0.steps(i as nat).output(),
            decreases n - k,
        {
            let s = self.process();
            out.set(k, s);
            proof {
                assert(m0.steps((k + 1) as nat) == m0.steps(k as nat).step());
            }
            k = k + 1;
        }
    }
}

impl MonoResamplerFast {
    /// Spawns a fresh playback voice over the same cached data: the track,
    /// rates and loop region are duplicated, but the play-heads restart from
    /// the beginning. This deliberately does not preserve the current
    /// playback position — it re-plays one cached sound from the start, as
    /// for polyphonic replay — and is therefore not a position-preserving
    /// duplicate.
    pub fn spawn(&self) -> (r: MonoResamplerFast)
        requires
            self.model().wf(),
        ensures
            r.model() == self.model().restarted(),
            r.model().wf(),
    {
        let mut copy: Vec<Sample> = Vec::new();
        let mut i: usize = 0;
        while i < self.data.len()
            invariant
                i <= self.data.len(),
                copy@.len() == i,
                forall|j: int| 0 <= j < i ==> copy@[j] == self.data@[j],
            decreases self.data.len() - i,
        {
            copy.push(self.data[i]);
            i = i + 1;
        }
        proof {
            assert(copy@ =~= self.data@);
            lemma_restarted_wf(self.model());
        }
        MonoResamplerFast {
            data: copy,
            pos1: 0,
            pos2: self.rate_in,
            rate_in: self.rate_in,
            rate_out: self.rate_out,
            loop_start: self.loop_start,
            loop_end: self.loop_end,
        }
    }
}

} // verus!
