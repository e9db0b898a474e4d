//! Resampler.
//!
//! Module defining the common trait [`Resampler`], its batch extension
//! [`BlockResampler`], and the mathematical model of linear-interpolation
//! playback that their contracts are stated over.

use vstd::prelude::*;
use crate::rounding::{lemma_div_ge, lemma_rdiv_exact, rdiv};
use crate::sample::{track_view, Sample};
use vstd::arithmetic::div_mod::{
    lemma_fundamental_div_mod, lemma_fundamental_div_mod_converse,
    lemma_fundamental_div_mod_converse_div, lemma_fundamental_div_mod_converse_mod,
    lemma_mod_bound,
};
use vstd::arithmetic::mul::{
    lemma_mul_inequality, lemma_mul_is_commutative, lemma_mul_is_distributive_add_other_way,
    lemma_mul_is_distributive_sub_other_way, lemma_mul_nonnegative,
};

pub mod mono_resampler_fast;

verus! {

/// The playback state of a linear-interpolation resampler.
///
/// Play-head positions are exact rationals with denominator `rate_out`: the
/// play-head `pos1 / rate_out` (and its interpolation partner
/// `pos2 / rate_out`) advances by `rate_in / rate_out` input samples per
/// output sample. `data` holds the fixed-point numerators of the input
/// track, and `[loop_start, loop_end)` is the loop region, with
/// `loop_end == 0` meaning that looping is disabled.
pub ghost struct PlaybackState {
    pub data: Seq<int>,
    pub pos1: int,
    pub pos2: int,
    pub rate_in: int,
    pub rate_out: int,
    pub loop_start: int,
    pub loop_end: int,
}

impl PlaybackState {
    /// Well-formedness: positive bounded rates, play-heads inside the range
    /// that keeps every index computation exact, and a loop region that is
    /// inside the track and at least one increment long.
    pub open spec fn wf(self) -> bool {
        &&& 1 <= self.rate_in <= 0xFFFF_FFFF
        &&& 1 <= self.rate_out <= 0xFFFF_FFFF
        &&& self.data.len() <= 0xFFFF_FFFF
        &&& 0 <= self.loop_start
        &&& if self.loop_end == 0 {
            &&& self.pos2 == self.pos1 + self.rate_in
            &&& 0 <= self.pos1 < self.data.len() * self.rate_out + self.rate_in
        } else {
            &&& self.loop_start < self.loop_end <= self.data.len()
            &&& self.rate_in <= (self.loop_end - self.loop_start) * self.rate_out
            &&& 0 <= self.pos1 < self.loop_end * self.rate_out
            &&& 0 <= self.pos2 <= self.loop_end * self.rate_out
        }
    }

    /// Whether playback has run past the end of the data with looping
    /// disabled; from here on every step emits silence and nothing advances.
    pub open spec fn exhausted(self) -> bool {
        self.pos1 / self.rate_out >= self.data.len() && self.loop_end == 0
    }

    /// The sample emitted by the next processing step: the sample under the
    /// first play-head, moved toward the sample under the second play-head
    /// by the fractional part of the first play-head's position.
    pub open spec fn output(self) -> int {
        if self.exhausted() {
            0
        } else {
            let x1 = self.data[self.pos1 / self.rate_out];
            let x2 = if self.pos2 / self.rate_out >= self.data.len() {
                0
            } else {
                self.data[self.pos2 / self.rate_out]
            };
            x1 + rdiv((self.pos1 % self.rate_out) * (x2 - x1), self.rate_out)
        }
    }

    /// One conditional loop wrap of a play-head numerator: a play-head whose
    /// index has reached `loop_end` is pulled back by the loop length.
    pub open spec fn wrap(self, pos: int) -> int {
        if pos / self.rate_out >= self.loop_end {
            pos - (self.loop_end - self.loop_start) * self.rate_out
        } else {
            pos
        }
    }

    /// The state after one processing step: both play-heads advance by one
    /// increment and, if looping is enabled, wrap independently.
    pub open spec fn step(self) -> PlaybackState {
        if self.exhausted() {
            self
        } else {
            let p1 = self.pos1 + self.rate_in;
            let p2 = self.pos2 + self.rate_in;
            if self.loop_end != 0 {
                PlaybackState { pos1: self.wrap(p1), pos2: self.wrap(p2), ..self }
            } else {
                PlaybackState { pos1: p1, pos2: p2, ..self }
            }
        }
    }

    /// The state after `n` processing steps.
    pub open spec fn steps(self, n: nat) -> PlaybackState
        decreases n,
    {
        if n == 0 {
            self
        } else {
            self.steps((n - 1) as nat).step()
        }
    }

    /// The samples emitted by `n` consecutive processing steps, as one batch.
    pub open spec fn outputs(self, n: nat) -> Seq<int>
        decreases n,
    {
        if n == 0 {
            Seq::empty()
        } else {
            seq![self.output()] + self.step().outputs((n - 1) as nat)
        }
    }

    /// The state a fresh playback voice restarts from: same data, rates and
    /// loop region, play-heads back at the beginning.
    pub open spec fn restarted(self) -> PlaybackState {
        PlaybackState { pos1: 0, pos2: self.rate_in, ..self }
    }
}

/// The construction arguments a resampler accepts: positive rates, a track
/// short enough for exact play-head arithmetic and, when looping is
/// requested, a loop region that lies inside the track and is at least one
/// increment long.
pub open spec fn valid_setup(
    len: int,
    out_rate: int,
    in_rate: int,
    loop_start: int,
    loop_end: int,
) -> bool {
    let lo = if loop_end < loop_start {
        loop_end
    } else {
        loop_start
    };
    let hi = if loop_end < loop_start {
        loop_start
    } else {
        loop_end
    };
    &&& 1 <= out_rate <= 0xFFFF_FFFF
    &&& 1 <= in_rate <= 0xFFFF_FFFF
    &&& 0 <= len <= 0xFFFF_FFFF
    &&& 0 <= loop_start
    &&& 0 <= loop_end
    &&& loop_end != 0 ==> lo < hi <= len && in_rate <= (hi - lo) * out_rate
}

/// The playback state a resampler constructor establishes. The sentinel
/// `loop_end == 0` disables looping no matter what `loop_start` holds; only
/// a non-sentinel reversed pair is normalized by swapping.
pub open spec fn initial_state(
    data: Seq<int>,
    out_rate: int,
    in_rate: int,
    loop_start: int,
    loop_end: int,
) -> PlaybackState {
    let ls = if loop_end != 0 && loop_end < loop_start {
        loop_end
    } else {
        loop_start
    };
    let le = if loop_end != 0 && loop_end < loop_start {
        loop_start
    } else {
        loop_end
    };
    PlaybackState {
        data,
        pos1: 0,
        pos2: in_rate,
        rate_in: in_rate,
        rate_out: out_rate,
        loop_start: ls,
        loop_end: le,
    }
}

/// A valid setup yields a well-formed initial state.
pub proof fn lemma_initial_state_wf(
    data: Seq<int>,
    out_rate: int,
    in_rate: int,
    loop_start: int,
    loop_end: int,
)
    requires
        valid_setup(data.len() as int, out_rate, in_rate, loop_start, loop_end),
    ensures
        initial_state(data, out_rate, in_rate, loop_start, loop_end).wf(),
{
    let s = initial_state(data, out_rate, in_rate, loop_start, loop_end);
    if s.loop_end != 0 {
        assert(1 <= s.loop_end * s.rate_out) by (nonlinear_arith)
            requires
                1 <= s.loop_end,
                1 <= s.rate_out,
        ;
        lemma_mul_inequality(s.loop_end - s.loop_start, s.loop_end, s.rate_out);
    } else {
        lemma_mul_nonnegative(s.data.len() as int, s.rate_out);
    }
}

/// A well-formed state restarts to a well-formed state.
pub proof fn lemma_restarted_wf(s: PlaybackState)
    requires
        s.wf(),
    ensures
        s.restarted().wf(),
{
    if s.loop_end != 0 {
        assert(1 <= s.loop_end * s.rate_out) by (nonlinear_arith)
            requires
                1 <= s.loop_end,
                1 <= s.rate_out,
        ;
        lemma_mul_inequality(s.loop_end - s.loop_start, s.loop_end, s.rate_out);
    } else {
        lemma_mul_nonnegative(s.data.len() as int, s.rate_out);
    }
}

/// One processing step preserves well-formedness.
pub proof fn lemma_step_wf(s: PlaybackState)
    requires
        s.wf(),
    ensures
        s.step().wf(),
{
    if !s.exhausted() {
        let p1 = s.pos1 + s.rate_in;
        let p2 = s.pos2 + s.rate_in;
        if s.loop_end != 0 {
            lemma_mul_is_distributive_sub_other_way(s.rate_out, s.loop_end, s.loop_start);
            lemma_mul_nonnegative(s.loop_start, s.rate_out);
            lemma_div_ge(p1, s.rate_out, s.loop_end);
            lemma_div_ge(p2, s.rate_out, s.loop_end);
        } else {
            lemma_div_ge(s.pos1, s.rate_out, s.data.len() as int);
        }
    }
}

/// Stepping once and then `n` times is stepping `n + 1` times.
pub proof fn lemma_steps_shift(s: PlaybackState, n: nat)
    ensures
        s.step().steps(n) == s.steps(n + 1),
    decreases n,
{
    if n == 0 {
        assert(s.steps(1) == s.steps(0).step());
    } else {
        lemma_steps_shift(s, (n - 1) as nat);
        assert(s.step().steps(n) == s.step().steps((n - 1) as nat).step());
        assert(s.steps(n + 1) == s.steps(n).step());
    }
}

/// Block equivalence: processing a batch of `n` samples emits exactly the
/// samples of `n` sequential single-step calls — the `i`-th element of the
/// batch is the output of the state reached by `i` single steps.
pub proof fn lemma_block_equivalence(s: PlaybackState, n: nat)
    ensures
        s.outputs(n).len() == n,
        forall|i: int| 0 <= i < n ==> s.outputs(n)[i] == s.steps(i as nat).output(),
    decreases n,
{
    if n > 0 {
        lemma_block_equivalence(s.step(), (n - 1) as nat);
        assert forall|i: int| 0 <= i < n implies s.outputs(n)[i] == s.steps(i as nat).output() by {
            if i > 0 {
                assert(s.outputs(n)[i] == s.step().outputs((n - 1) as nat)[i - 1]);
                assert(s.step().outputs((n - 1) as nat)[i - 1] == s.step().steps((i - 1) as nat).output());
                lemma_steps_shift(s, (i - 1) as nat);
            }
        }
    }
}

/// With equal rates and looping disabled the play-heads stay on the sample
/// grid: after `k` steps they sit at positions `k` and `k + 1`.
proof fn lemma_identity_heads(data: Seq<int>, rate: int, k: nat)
    requires
        1 <= rate,
        k <= data.len(),
    ensures
        initial_state(data, rate, rate, 0, 0).steps(k) == (PlaybackState {
            data,
            pos1: k * rate,
            pos2: (k + 1) * rate,
            rate_in: rate,
            rate_out: rate,
            loop_start: 0,
            loop_end: 0,
        }),
    decreases k,
{
    if k == 0 {
        assert(0 * rate == 0);
        assert(1 * rate == rate);
    } else {
        lemma_identity_heads(data, rate, (k - 1) as nat);
        let prev = initial_state(data, rate, rate, 0, 0).steps((k - 1) as nat);
        lemma_fundamental_div_mod_converse_div(prev.pos1, rate, k - 1, 0);
        lemma_mul_is_distributive_add_other_way(rate, k - 1, 1);
        lemma_mul_is_distributive_add_other_way(rate, k as int, 1);
        assert(1 * rate == rate);
        assert(!prev.exhausted());
    }
}

/// Resampler identity: with equal input and output rates and looping
/// disabled, playback reproduces the original track sample for sample —
/// step `k` emits exactly `data[k]`.
pub proof fn lemma_identity_resampling(data: Seq<int>, rate: int, k: nat)
    requires
        1 <= rate,
        k < data.len(),
    ensures
        initial_state(data, rate, rate, 0, 0).steps(k).output() == data[k as int],
{
    lemma_identity_heads(data, rate, k);
    let s = initial_state(data, rate, rate, 0, 0).steps(k);
    lemma_fundamental_div_mod_converse(s.pos1, rate, k as int, 0);
    lemma_rdiv_exact(0, rate);
    assert(!s.exhausted());
}

/// The input index under the first play-head at step `k` of unit-increment
/// looped playback: positions run `0, 1, …, loop_end - 1` and then cycle
/// through the loop region `[loop_start, loop_end)`.
pub open spec fn unit_loop_position(ls: int, le: int, k: int) -> int
    recommends
        0 <= ls < le,
{
    if k < le {
        k
    } else {
        ls + (k - ls) % (le - ls)
    }
}

/// Advancing unit-increment looped playback by one step moves the position
/// forward by one, wrapping back by the loop length at `loop_end`.
proof fn lemma_unit_loop_position_step(ls: int, le: int, k: int)
    requires
        0 <= ls < le,
        0 <= k,
    ensures
        unit_loop_position(ls, le, k + 1) == ({
            let p = unit_loop_position(ls, le, k) + 1;
            if p >= le {
                p - (le - ls)
            } else {
                p
            }
        }),
{
    let span = le - ls;
    if k + 1 < le {
        // Both sides are k + 1.
    } else if k < le {
        // k + 1 == le: the position wraps back to the loop start.
        lemma_fundamental_div_mod_converse_mod(span, span, 1, 0);
        assert(1 * span == span);
    } else {
        lemma_fundamental_div_mod(k - ls, span);
        lemma_mod_bound(k - ls, span);
        let q = (k - ls) / span;
        let r = (k - ls) % span;
        lemma_mul_is_commutative(span, q);
        if r + 1 < span {
            lemma_fundamental_div_mod_converse_mod(k + 1 - ls, span, q, r + 1);
        } else {
            lemma_mul_is_distributive_add_other_way(span, q, 1);
            assert(1 * span == span);
            lemma_fundamental_div_mod_converse_mod(k + 1 - ls, span, q + 1, 0);
        }
    }
}

/// At unit increment with looping enabled, the first play-head sits exactly
/// at `unit_loop_position(ls, le, k)` input samples after `k` steps.
proof fn lemma_unit_loop_heads(data: Seq<int>, rate: int, ls: int, le: int, k: nat)
    requires
        1 <= rate,
        0 <= ls < le <= data.len(),
    ensures
        ({
            let s = initial_state(data, rate, rate, ls, le).steps(k);
            &&& s.data == data
            &&& s.rate_in == rate
            &&& s.rate_out == rate
            &&& s.loop_start == ls
            &&& s.loop_end == le
            &&& s.pos1 == unit_loop_position(ls, le, k as int) * rate
        }),
        0 <= unit_loop_position(ls, le, k as int) < le,
    decreases k,
{
    if k == 0 {
        assert(0 * rate == 0);
    } else {
        lemma_unit_loop_heads(data, rate, ls, le, (k - 1) as nat);
        let prev = initial_state(data, rate, rate, ls, le).steps((k - 1) as nat);
        let p = unit_loop_position(ls, le, k - 1);
        lemma_fundamental_div_mod_converse_div(prev.pos1, rate, p, 0);
        assert(!prev.exhausted());
        lemma_mul_is_distributive_add_other_way(rate, p, 1);
        assert(1 * rate == rate);
        // The advanced play-head sits at (p + 1) * rate; its wrap mirrors
        // the wrap of the unit position.
        lemma_fundamental_div_mod_converse_div((p + 1) * rate, rate, p + 1, 0);
        lemma_mul_is_distributive_sub_other_way(rate, p + 1, le - ls);
        lemma_unit_loop_position_step(ls, le, k - 1);
        if ls + (k as int - ls) % (le - ls) >= 0 {
            lemma_mod_bound(k as int - ls, le - ls);
        }
    }
}

/// Loop playback at unit increment: step `k` emits the sample at
/// `unit_loop_position(loop_start, loop_end, k)` — after reaching the end of
/// the loop region the play-head jumps back to its start.
pub proof fn lemma_loop_playback(data: Seq<int>, rate: int, ls: int, le: int, k: nat)
    requires
        1 <= rate,
        0 <= ls < le <= data.len(),
    ensures
        initial_state(data, rate, rate, ls, le).steps(k).output() == data[unit_loop_position(
            ls,
            le,
            k as int,
        )],
        0 <= unit_loop_position(ls, le, k as int) < le,
{
    lemma_unit_loop_heads(data, rate, ls, le, k);
    let s = initial_state(data, rate, rate, ls, le).steps(k);
    let p = unit_loop_position(ls, le, k as int);
    lemma_fundamental_div_mod_converse(s.pos1, rate, p, 0);
    lemma_rdiv_exact(0, rate);
    assert(!s.exhausted());
}

/// Loop correctness: at unit increment, once `k` has reached the loop start
/// the emitted sequence is periodic with period `loop_end - loop_start`.
pub proof fn lemma_loop_periodicity(data: Seq<int>, rate: int, ls: int, le: int, k: nat)
    requires
        1 <= rate,
        0 <= ls < le <= data.len(),
        ls <= k,
    ensures
        initial_state(data, rate, rate, ls, le).steps((k + le - ls) as nat).output()
            == initial_state(data, rate, rate, ls, le).steps(k).output(),
{
    let span = le - ls;
    lemma_loop_playback(data, rate, ls, le, k);
    lemma_loop_playback(data, rate, ls, le, (k + span) as nat);
    if k < le {
        lemma_fundamental_div_mod_converse_mod(k + span - ls, span, 1, k - ls);
        assert(1 * span == span);
    } else {
        lemma_fundamental_div_mod(k - ls, span);
        lemma_mod_bound(k - ls, span);
        let q = (k - ls) / span;
        let r = (k - ls) % span;
        lemma_mul_is_commutative(span, q);
        lemma_mul_is_distributive_add_other_way(span, q, 1);
        assert(1 * span == span);
        lemma_fundamental_div_mod_converse_mod(k + span - ls, span, q + 1, r);
    }
}

/// Trait defining the interface for types that take a given audio data set
/// and resample it from its original sample rate to a given new sample rate.
pub trait Resampler: Sized {
    /// The playback state that the implementation currently holds.
    spec fn model(&self) -> PlaybackState;

    /// Creates a new resampler.
    ///
    /// `data` is moved into the resampler rather than borrowed. `loop_end`
    /// is the end of the loop region `[loop_start, loop_end)`; passing `0`
    /// disables looping no matter what `loop_start` holds, and a non-zero
    /// reversed pair is normalized by swapping.
    fn new(
        data: Vec<Sample>,
        output_sample_rate: u32,
        input_sample_rate: u32,
        loop_start: usize,
        loop_end: usize,
    ) -> (r: Self)
        requires
            valid_setup(
                data@.len() as int,
                output_sample_rate as int,
                input_sample_rate as int,
                loop_start as int,
                loop_end as int,
            ),
        ensures
            r.model() == initial_state(
                track_view(data@),
                output_sample_rate as int,
                input_sample_rate as int,
                loop_start as int,
                loop_end as int,
            ),
            r.model().wf(),
    ;

    /// Calculates and returns the next sample.
    fn process(&mut self) -> (s: Sample)
        requires
            old(self).model().wf(),
        ensures
            final(self).model() == old(self).model().step(),
            final(self).model().wf(),
            s@ == old(self).model().output(),
    ;
}

/// Extends the [`Resampler`] trait with the ability to process a batch of
/// samples at a time.
pub trait BlockResampler: Resampler {
    /// Calculates a batch of samples in one call, overwriting every slot of
    /// `out`. The batch is observably equivalent to `out.len()` sequential
    /// calls of `process`: slot `i` receives the output of the state reached
    /// by `i` single steps.
    fn process_block(&mut self, out: &mut Vec<Sample>)
        requires
            old(self).model().wf(),
        ensures
            final(self).model() == old(self).model().steps(old(out)@.len()),
            final(self).model().wf(),
            final(out)@.len() == old(out)@.len(),
            forall|i: int|
                0 <= i < old(out)@.len() ==> final(out)@[i]@ == old(self).model().steps(
                    i as nat,
                ).output(),
    ;
}

} // verus!
