//! Sources, and how they mix into a buffer.

use rmms_engine::{Frame, FrameModifier, PlayHandle, Sample};

fn sample(x: f32) -> Sample {
    Sample { bits: x.to_bits() }
}

fn frame(left: f32, right: f32) -> Frame {
    [sample(left), sample(right)]
}

fn silence(n: usize) -> Vec<Frame> {
    vec![frame(0.0, 0.0); n]
}

/// A source that plays a fixed list of frames and gaps, once.
struct Recorded {
    material: Vec<Option<Frame>>,
    position: usize,
}

impl Recorded {
    fn new(material: Vec<Option<Frame>>) -> Recorded {
        Recorded { material, position: 0 }
    }
}

impl PlayHandle for Recorded {
    fn next(&mut self) -> Option<Frame> {
        if self.position < self.material.len() {
            let f: Option<Frame> = self.material[self.position];
            self.position += 1;
            f
        } else {
            None
        }
    }

    fn reset(&mut self) {
        self.position = 0;
    }

    fn jump(&mut self, tick: usize) {
        self.position = tick.min(self.material.len());
    }
}

fn pull_all(h: &mut dyn PlayHandle, n: usize) -> Vec<Option<Frame>> {
    let mut out: Vec<Option<Frame>> = Vec::new();
    for _ in 0..n {
        out.push(h.next());
    }
    out
}

#[test]
fn write_adds_frames_and_skips_gaps() {
    let mut h = Recorded::new(vec![Some(frame(0.1, 0.2)), None, Some(frame(0.3, 0.4))]);
    let mut buffer: Vec<Frame> = silence(3);
    assert_eq!(h.write(&mut buffer), Some(2));
    assert_eq!(buffer, vec![frame(0.1, 0.2), frame(0.0, 0.0), frame(0.3, 0.4)]);
}

#[test]
fn two_sources_sum_in_one_buffer() {
    let mut a = Recorded::new(vec![Some(frame(0.1, 0.1)), Some(frame(0.2, 0.2))]);
    let mut b = Recorded::new(vec![Some(frame(0.05, 0.05)), None]);
    let mut buffer: Vec<Frame> = silence(2);
    assert_eq!(a.write(&mut buffer), Some(2));
    assert_eq!(b.write(&mut buffer), Some(1));
    assert_eq!(buffer, vec![frame(0.15, 0.15), frame(0.2, 0.2)]);
}

#[test]
fn write_never_overwrites() {
    let mut h = Recorded::new(vec![Some(frame(0.25, -0.5)), None]);
    let mut buffer: Vec<Frame> = vec![frame(0.5, 0.5), frame(0.75, -0.75)];
    assert_eq!(h.write(&mut buffer), Some(1));
    assert_eq!(buffer, vec![frame(0.75, 0.0), frame(0.75, -0.75)]);
}

#[test]
fn write_matches_an_independent_pull_sequence() {
    let material: Vec<Option<Frame>> = vec![
        Some(frame(0.1, -0.3)),
        None,
        Some(frame(1.0e-3, 7.0)),
        Some(frame(-0.6, 0.6)),
        None,
        None,
        Some(frame(0.33, 0.66)),
    ];
    let before: Vec<Frame> = vec![
        frame(0.7, 0.2),
        frame(0.5, 0.5),
        frame(-1.0e-3, 1.0),
        frame(0.6, 0.1),
        frame(0.0, 0.0),
    ];
    let mut pulled = Recorded::new(material.clone());
    let pulls: Vec<Option<Frame>> = pull_all(&mut pulled, before.len());
    let mut h = Recorded::new(material);
    let mut buffer: Vec<Frame> = before.clone();
    let written: Option<usize> = h.write(&mut buffer);
    let mut count: usize = 0;
    for i in 0..before.len() {
        match pulls[i] {
            Some(f) => {
                count += 1;
                let l: f32 = f32::from_bits(before[i][0].bits) + f32::from_bits(f[0].bits);
                let r: f32 = f32::from_bits(before[i][1].bits) + f32::from_bits(f[1].bits);
                assert_eq!(buffer[i], frame(l, r));
            }
            None => assert_eq!(buffer[i], before[i]),
        }
    }
    assert_eq!(written, Some(count));
    // the handle has moved on by the length of the buffer
    assert_eq!(h.next(), None);
    assert_eq!(h.next(), Some(frame(0.33, 0.66)));
}

#[test]
fn write_into_an_empty_buffer_does_nothing() {
    let mut h = Recorded::new(vec![Some(frame(0.1, 0.2))]);
    let mut buffer: Vec<Frame> = Vec::new();
    assert_eq!(h.write(&mut buffer), Some(0));
    assert_eq!(h.next(), Some(frame(0.1, 0.2)));
}

#[test]
fn a_depleted_source_adds_nothing() {
    let mut h = Recorded::new(vec![Some(frame(0.1, 0.2))]);
    assert_eq!(h.next(), Some(frame(0.1, 0.2)));
    assert_eq!(h.next(), None);
    let mut buffer: Vec<Frame> = vec![frame(0.5, 0.25); 4];
    assert_eq!(h.write(&mut buffer), Some(0));
    assert_eq!(buffer, vec![frame(0.5, 0.25); 4]);
    assert_eq!(h.next(), None);
}

#[test]
fn write_does_not_clamp() {
    let mut h = Recorded::new(vec![Some(frame(0.75, -0.75))]);
    let mut buffer: Vec<Frame> = vec![frame(0.75, -0.75)];
    assert_eq!(h.write(&mut buffer), Some(1));
    assert_eq!(buffer, vec![frame(1.5, -1.5)]);
    assert_eq!(buffer[0].clamp(), frame(1.0, -1.0));
}

#[test]
fn reset_restarts_the_stream() {
    let material: Vec<Option<Frame>> = vec![Some(frame(0.1, 0.2)), None, Some(frame(0.3, 0.4))];
    let mut fresh = Recorded::new(material.clone());
    fresh.reset();
    let expected: Vec<Option<Frame>> = pull_all(&mut fresh, 5);
    let mut used = Recorded::new(material);
    let _ = pull_all(&mut used, 2);
    used.jump(1);
    let _ = used.next();
    used.reset();
    assert_eq!(pull_all(&mut used, 5), expected);
}

#[test]
fn reset_twice_is_reset_once() {
    let material: Vec<Option<Frame>> = vec![Some(frame(0.1, 0.2)), Some(frame(0.3, 0.4))];
    let mut once = Recorded::new(material.clone());
    let _ = once.next();
    once.reset();
    let mut twice = Recorded::new(material);
    let _ = twice.next();
    twice.reset();
    twice.reset();
    assert_eq!(pull_all(&mut once, 4), pull_all(&mut twice, 4));
}

#[test]
fn jump_repositions_and_revives() {
    let mut h = Recorded::new(vec![Some(frame(0.1, 0.1)), Some(frame(0.2, 0.2)), Some(frame(0.3, 0.3))]);
    let _ = pull_all(&mut h, 5);
    assert_eq!(h.next(), None);
    h.jump(2);
    assert_eq!(h.next(), Some(frame(0.3, 0.3)));
    assert_eq!(h.next(), None);
    h.jump(1_000_000);
    assert_eq!(h.next(), None);
}

#[test]
fn a_boxed_handle_plays_what_is_in_the_box() {
    let material: Vec<Option<Frame>> = vec![Some(frame(0.1, 0.2)), None, Some(frame(0.3, 0.4))];
    let mut boxed: Box<dyn PlayHandle> = Box::new(Recorded::new(material));
    assert_eq!(PlayHandle::next(&mut boxed), Some(frame(0.1, 0.2)));
    PlayHandle::jump(&mut boxed, 2);
    assert_eq!(PlayHandle::next(&mut boxed), Some(frame(0.3, 0.4)));
    PlayHandle::reset(&mut boxed);
    let mut buffer: Vec<Frame> = silence(3);
    assert_eq!(PlayHandle::write(&mut boxed, &mut buffer), Some(2));
    assert_eq!(buffer, vec![frame(0.1, 0.2), frame(0.0, 0.0), frame(0.3, 0.4)]);
}

#[test]
fn boxed_handles_of_different_shapes_mix_together() {
    struct Steady {
        level: Frame,
    }
    impl PlayHandle for Steady {
        fn next(&mut self) -> Option<Frame> {
            Some(self.level)
        }
        fn reset(&mut self) {}
        fn jump(&mut self, _tick: usize) {}
    }
    let mut sources: Vec<Box<dyn PlayHandle>> = vec![
        Box::new(Recorded::new(vec![Some(frame(0.25, 0.25)), None])),
        Box::new(Steady { level: frame(0.5, -0.5) }),
    ];
    let mut buffer: Vec<Frame> = silence(2);
    let mut counts: Vec<Option<usize>> = Vec::new();
    for s in sources.iter_mut() {
        counts.push(s.write(&mut buffer));
    }
    assert_eq!(counts, vec![Some(1), Some(2)]);
    assert_eq!(buffer, vec![frame(0.75, -0.25), frame(0.5, -0.5)]);
}

#[test]
fn the_order_of_two_sources_does_not_change_the_mix() {
    let a: Vec<Option<Frame>> = vec![Some(frame(0.1, -0.7)), None, Some(frame(1.0e-8, 0.3))];
    let b: Vec<Option<Frame>> = vec![Some(frame(0.25, 0.7)), Some(frame(-0.5, 0.5)), None];
    let mut first: Vec<Frame> = silence(3);
    let _ = Recorded::new(a.clone()).write(&mut first);
    let _ = Recorded::new(b.clone()).write(&mut first);
    let mut second: Vec<Frame> = silence(3);
    let _ = Recorded::new(b).write(&mut second);
    let _ = Recorded::new(a).write(&mut second);
    assert_eq!(first, second);
}

#[test]
fn silence_takes_a_frame_as_it_is() {
    let f: Frame = [Sample { bits: 0x0000_0001 }, Sample { bits: 0xff7f_ffff }];
    let mut h = Recorded::new(vec![Some(f)]);
    let mut buffer: Vec<Frame> = silence(1);
    assert_eq!(h.write(&mut buffer), Some(1));
    assert_eq!(buffer, vec![f]);
}
