//! The core of an audio engine: stereo frames and the operations on them,
//! pull-based sources that mix themselves into a buffer, and the interface of
//! an output device.
//!
//! A sample is an IEEE 754 binary32 number held as its bit pattern, so that
//! every operation on it is defined, and proved, down to the last bit.

pub mod arith;
pub mod binary32;
pub mod device;
pub mod frame;
pub mod nearest;
pub mod play_handle;
pub mod rounding;

pub use device::{AudioInputDevice, AudioOutputDevice, EngineHandle};
pub use frame::{Frame, FrameModifier, Sample};
pub use play_handle::PlayHandle;
