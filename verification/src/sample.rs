//! The normalized sample representation.

use vstd::prelude::*;

verus! {

/// Number of fixed-point steps that stand for an amplitude of `1.0`.
pub const SAMPLE_SCALE: i64 = 0x100_0000;

/// One normalized audio amplitude.
///
/// The amplitude is held in fixed point: a `Sample` with numerator `num`
/// stands for the value `num / SAMPLE_SCALE`. Nominal amplitudes lie in
/// `[-1.0, 1.0]` (numerators in `[-SAMPLE_SCALE, SAMPLE_SCALE]`), but values
/// outside that range are valid intermediate state — analog overshoot — and
/// are only reduced by explicit clipping.
#[derive(Clone, Copy, PartialEq, Eq, Structural, Debug)]
pub struct Sample {
    pub num: i64,
}

impl View for Sample {
    type V = int;

    open spec fn view(&self) -> int {
        self.num as int
    }
}

impl Sample {
    /// The sample with the given fixed-point numerator.
    pub fn from_num(num: i64) -> (s: Sample)
        ensures
            s@ == num,
    {
        Sample { num }
    }

    /// The fixed-point numerator.
    pub fn num(&self) -> (n: i64)
        ensures
            n == self@,
    {
        self.num
    }

    /// The zero amplitude: silence.
    pub fn zero() -> (s: Sample)
        ensures
            s@ == 0,
    {
        Sample { num: 0 }
    }
}

/// One audio channel: an ordered sequence of samples.
pub type SampleTrack = Vec<Sample>;

/// The amplitudes of a track, as mathematical integers.
pub open spec fn track_view(t: Seq<Sample>) -> Seq<int> {
    Seq::new(t.len(), |i: int| t[i]@)
}

} // verus!
