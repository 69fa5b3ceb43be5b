//! The devices at the two ends of the engine.

use vstd::prelude::*;
use crate::frame::Frame;

verus! {

/// The engine that owns a device, as the device sees it when it is made: a
/// capability that is passed through. Only its identity matters here.
#[derive(Clone, Copy, Debug, PartialEq, Eq)]
pub struct EngineHandle {
    pub id: u64,
}

/// A device that audio comes in from. Nothing is asked of it yet.
pub trait AudioInputDevice {
}

/// An output device as the contracts see it.
pub struct Output {
    /// The sample rate in Hz that the device was made with.
    pub rate: u32,
    /// The frames that the device has taken since it was made or last reset,
    /// in the order in which they were presented.
    pub taken: Seq<Frame>,
}

/// The sink that finished frames go to. It plays at one sample rate for as
/// long as it lives.
///
/// The output is the model that the contracts speak of. A device that is
/// verified says what it is. One that is not leaves it as it stands here, a
/// function of its state of which nothing more is known, and is trusted to
/// behave as the contracts say.
pub trait AudioOutputDevice {
    /// The rate of the device and what it has taken.
    open spec fn output(&self) -> Output {
        arbitrary::<spec_fn(&Self) -> Output>()(self)
    }

    /// Makes a device for the engine behind `handle`, or gives nothing where
    /// no device can be made. A new device has taken no frame.
    fn init(handle: EngineHandle) -> (device: Option<Box<Self>>) where Self: Sized
        ensures
            device matches Some(d) ==> d.output().rate > 0 && d.output().taken
                == Seq::<Frame>::empty(),
    ;

    /// The sample rate in Hz.
    fn rate(&self) -> (hz: u32)
        ensures
            hz == self.output().rate,
            hz > 0,
    ;

    /// Brings the device back to the state it was made in: what it has taken
    /// is dropped, the rate stays.
    fn reset(&mut self)
        ensures
            final(self).output().rate == old(self).output().rate,
            final(self).output().taken == Seq::<Frame>::empty(),
    ;

    /// Takes a block of frames, in order. The frames are final: the caller
    /// has mixed and clamped them.
    fn write(&mut self, chunk: &[Frame])
        ensures
            final(self).output().rate == old(self).output().rate,
            final(self).output().taken == old(self).output().taken + chunk@,
    ;
}

} // verus!
