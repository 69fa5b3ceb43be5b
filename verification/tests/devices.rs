//! The output device's interface, on a device that only records.

use rmms_engine::{AudioInputDevice, AudioOutputDevice, EngineHandle, Frame, Sample};

fn frame(left: f32, right: f32) -> Frame {
    [Sample { bits: left.to_bits() }, Sample { bits: right.to_bits() }]
}

struct Recorder {
    hz: u32,
    taken: Vec<Frame>,
}

impl AudioOutputDevice for Recorder {
    fn init(handle: EngineHandle) -> Option<Box<Self>> {
        if handle.id == 0 {
            None
        } else {
            Some(Box::new(Recorder { hz: 48_000, taken: Vec::new() }))
        }
    }

    fn rate(&self) -> u32 {
        self.hz
    }

    fn reset(&mut self) {
        self.taken.clear();
    }

    fn write(&mut self, chunk: &[Frame]) {
        self.taken.extend_from_slice(chunk);
    }
}

struct Microphone;

impl AudioInputDevice for Microphone {}

#[test]
fn init_may_fail() {
    assert!(Recorder::init(EngineHandle { id: 0 }).is_none());
    assert!(Recorder::init(EngineHandle { id: 7 }).is_some());
}

#[test]
fn the_rate_stays() {
    let mut d: Box<Recorder> = Recorder::init(EngineHandle { id: 1 }).unwrap();
    let hz: u32 = d.rate();
    assert!(hz > 0);
    d.write(&[frame(0.1, 0.2)]);
    assert_eq!(d.rate(), hz);
    d.reset();
    assert_eq!(d.rate(), hz);
}

#[test]
fn frames_are_taken_in_order_and_dropped_by_reset() {
    let mut d: Box<Recorder> = Recorder::init(EngineHandle { id: 1 }).unwrap();
    d.write(&[frame(0.1, 0.2), frame(0.3, 0.4)]);
    d.write(&[frame(0.5, 0.6)]);
    assert_eq!(d.taken, vec![frame(0.1, 0.2), frame(0.3, 0.4), frame(0.5, 0.6)]);
    d.reset();
    assert!(d.taken.is_empty());
}

#[test]
fn an_input_device_needs_nothing() {
    fn takes(_d: &dyn AudioInputDevice) {}
    takes(&Microphone);
}

#[test]
fn engine_handles_compare_by_identity() {
    assert_eq!(EngineHandle { id: 3 }, EngineHandle { id: 3 });
    assert_ne!(EngineHandle { id: 3 }, EngineHandle { id: 4 });
}
