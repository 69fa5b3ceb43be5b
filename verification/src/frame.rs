//! Stereo frames and the operations on one frame.

use vstd::prelude::*;
use crate::arith::{lemma_product_by_one, product, times};
use crate::binary32::{
    clamp_unit, clamped, is_finite, is_nan, lemma_clamped_in_range, value, NEG_ONE, ONE,
};

verus! {

/// One channel's sample: an IEEE 754 binary32 number, held as its bit
/// pattern. The nominal range is from -1 to 1; a sample may leave it between
/// two clamps.
#[derive(Clone, Copy, Debug, PartialEq, Eq)]
pub struct Sample {
    pub bits: u32,
}

/// A stereo frame: the left sample, then the right one.
pub type Frame = [Sample; 2];

/// The frame with each sample limited to the range from -1 to 1.
pub open spec fn clamped_frame(f: Frame) -> Frame {
    [Sample { bits: clamped(f[0].bits) }, Sample { bits: clamped(f[1].bits) }]
}

/// The frame with each sample multiplied by the gain.
pub open spec fn amplified(f: Frame, gain: Sample) -> Frame {
    [Sample { bits: product(f[0].bits, gain.bits) }, Sample { bits: product(f[1].bits, gain.bits) }]
}

/// The frame with the sample of one channel on both.
pub open spec fn forced(f: Frame, channel: int) -> Frame
    recommends
        0 <= channel < 2,
{
    [f[channel], f[channel]]
}

/// The frame with left and right exchanged.
pub open spec fn swapped(f: Frame) -> Frame {
    [f[1], f[0]]
}

/// What can be done to one frame. Each operation gives a new frame and leaves
/// the one it was given as it is.
///
/// The channels are the model that the contracts speak of. A frame type that
/// is verified says what they are, as the stereo frame below does. One that
/// is not leaves them as they stand here, a function of the frame of which
/// nothing more is known, and is trusted to behave as the contracts say.
pub trait FrameModifier: Sized {
    /// The sample of a channel: 0 is left, 1 is right.
    open spec fn channel(self, c: int) -> Sample {
        arbitrary::<spec_fn(Self, int) -> Sample>()(self, c)
    }

    /// Limits each channel to the range from -1 to 1.
    fn clamp(self) -> (r: Self)
        ensures
            r.channel(0).bits == clamped(self.channel(0).bits),
            r.channel(1).bits == clamped(self.channel(1).bits),
    ;

    /// Multiplies each channel by `value`. Nothing is clamped.
    fn amplify(self, value: Sample) -> (r: Self)
        ensures
            r.channel(0).bits == product(self.channel(0).bits, value.bits),
            r.channel(1).bits == product(self.channel(1).bits, value.bits),
    ;

    /// Puts the sample of `channel` on both channels.
    fn force_channel(self, channel: usize) -> (r: Self)
        requires
            channel < 2,
        ensures
            r.channel(0) == self.channel(channel as int),
            r.channel(1) == self.channel(channel as int),
    ;

    /// Exchanges left and right.
    fn swap_channels(self) -> (r: Self)
        ensures
            r.channel(0) == self.channel(1),
            r.channel(1) == self.channel(0),
    ;
}

impl FrameModifier for Frame {
    open spec fn channel(self, c: int) -> Sample {
        self[c]
    }

    fn clamp(self) -> (r: Self)
        ensures
            r == clamped_frame(self),
    {
        [Sample { bits: clamp_unit(self[0].bits) }, Sample { bits: clamp_unit(self[1].bits) }]
    }

    fn amplify(self, value: Sample) -> (r: Self)
        ensures
            r == amplified(self, value),
    {
        [
            Sample { bits: times(self[0].bits, value.bits) },
            Sample { bits: times(self[1].bits, value.bits) },
        ]
    }

    fn force_channel(self, channel: usize) -> (r: Self)
        ensures
            r == forced(self, channel as int),
    {
        let sample = self[channel];
        [sample, sample]
    }

    fn swap_channels(self) -> (r: Self)
        ensures
            r == swapped(self),
    {
        [self[1], self[0]]
    }
}

/// Exchanging the channels twice gives the frame back.
pub proof fn lemma_swap_is_involution(f: Frame)
    ensures
        swapped(swapped(f)) == f,
{
    assert(swapped(swapped(f)) =~= f);
}

/// After a clamp each channel that is a number lies between -1 and 1.
pub proof fn lemma_clamp_in_range(f: Frame, c: int)
    requires
        0 <= c < 2,
        !is_nan(f[c].bits),
    ensures
        !is_nan(clamped_frame(f)[c].bits),
        value(NEG_ONE) <= value(clamped_frame(f)[c].bits) <= value(ONE),
{
    lemma_clamped_in_range(f[c].bits);
}

/// A clamped frame is not changed by a second clamp.
pub proof fn lemma_clamp_is_idempotent(f: Frame)
    ensures
        clamped_frame(clamped_frame(f)) == clamped_frame(f),
{
    assert(forall|x: u32| clamped(clamped(x)) == #[trigger] clamped(x)) by {
        assert forall|x: u32| clamped(clamped(x)) == #[trigger] clamped(x) by {
            if !is_nan(x) {
                lemma_clamped_in_range(x);
            }
        }
    }
    assert(clamped_frame(clamped_frame(f)) =~= clamped_frame(f));
}

/// The gain 1 leaves a frame of finite samples as it is.
pub proof fn lemma_amplify_by_one(f: Frame)
    requires
        is_finite(f[0].bits),
        is_finite(f[1].bits),
    ensures
        amplified(f, Sample { bits: ONE }) == f,
{
    lemma_product_by_one(f[0].bits);
    lemma_product_by_one(f[1].bits);
    assert(amplified(f, Sample { bits: ONE }) =~= f);
}

} // verus!
