//! Pull-based stereo sources and the way they mix themselves into a buffer.
//!
//! What a handle will play is modelled as a stream: `upcoming(i)` is what the
//! `i`-th pull from now yields, a frame or nothing. Beside it stand the
//! streams that the transport controls bring back: the one after a reset and,
//! for each tick, the one after a jump there. Pulling moves along the stream
//! and leaves the other two as they are.

use vstd::prelude::*;
use crate::arith::{lemma_sum_commutes, lemma_sum_with_zero, plus, sum};
use crate::binary32::{is_finite, SIGN_BIT};
use crate::frame::{Frame, Sample};

verus! {

/// A slot of the output buffer after one pull was mixed into it: where a
/// frame came, each channel is the sum of what was there and what came;
/// where nothing came, the slot is as it was.
pub open spec fn mixed(slot: Frame, pulled: Option<Frame>) -> Frame {
    match pulled {
        Some(f) => [
            Sample { bits: sum(slot[0].bits, f[0].bits) },
            Sample { bits: sum(slot[1].bits, f[1].bits) },
        ],
        None => slot,
    }
}

/// How many of the pulls yielded a frame.
pub open spec fn frames_among(pulls: Seq<Option<Frame>>) -> nat
    decreases pulls.len(),
{
    if pulls.len() == 0 {
        0
    } else {
        frames_among(pulls.drop_last()) + if pulls.last() is Some {
            1nat
        } else {
            0nat
        }
    }
}

/// No more frames than pulls.
pub proof fn lemma_frames_among_bound(pulls: Seq<Option<Frame>>)
    ensures
        frames_among(pulls) <= pulls.len(),
    decreases pulls.len(),
{
    if pulls.len() > 0 {
        lemma_frames_among_bound(pulls.drop_last());
    }
}

/// Pulls that all yield nothing hold no frame.
pub proof fn lemma_frames_among_none(pulls: Seq<Option<Frame>>)
    requires
        forall|i: int| 0 <= i < pulls.len() ==> pulls[i] is None,
    ensures
        frames_among(pulls) == 0,
    decreases pulls.len(),
{
    if pulls.len() > 0 {
        lemma_frames_among_none(pulls.drop_last());
    }
}

/// A frame of finite samples mixed into silence is that frame, bit for bit,
/// but for a negative zero, which comes out positive.
pub proof fn lemma_mixed_into_silence(f: Frame)
    requires
        is_finite(f[0].bits) && f[0].bits != SIGN_BIT,
        is_finite(f[1].bits) && f[1].bits != SIGN_BIT,
    ensures
        mixed([Sample { bits: 0 }, Sample { bits: 0 }], Some(f)) == f,
{
    lemma_sum_with_zero(f[0].bits);
    lemma_sum_with_zero(f[1].bits);
    assert(mixed([Sample { bits: 0 }, Sample { bits: 0 }], Some(f)) =~= f);
}

/// It does not matter which of two frames is mixed into the other.
pub proof fn lemma_mixed_commutes(f: Frame, g: Frame)
    ensures
        mixed(f, Some(g)) == mixed(g, Some(f)),
{
    lemma_sum_commutes(f[0].bits, g[0].bits);
    lemma_sum_commutes(f[1].bits, g[1].bits);
}

/// What a handle will play, as the contracts see it.
pub struct Playback {
    /// What the `i`-th pull from now yields.
    pub upcoming: spec_fn(nat) -> Option<Frame>,
    /// What the `i`-th pull after a reset yields.
    pub from_start: spec_fn(nat) -> Option<Frame>,
    /// What the `i`-th pull after a jump to a tick yields.
    pub from_tick: spec_fn(usize, nat) -> Option<Frame>,
}

impl Playback {
    /// What the next `n` pulls yield, in order.
    pub open spec fn pulls(self, n: nat) -> Seq<Option<Frame>> {
        Seq::new(n, |i: int| (self.upcoming)(i as nat))
    }

    /// Whether two handles play the same from now on.
    pub open spec fn same_stream(self, other: Playback) -> bool {
        forall|i: nat| #[trigger] (self.upcoming)(i) == (other.upcoming)(i)
    }

    /// Whether two handles hold the same material: a reset, or a jump to any
    /// tick, brings the same stream in both.
    pub open spec fn same_material(self, other: Playback) -> bool {
        &&& forall|i: nat| #[trigger] (self.from_start)(i) == (other.from_start)(i)
        &&& forall|tick: usize, i: nat| #[trigger]
            (self.from_tick)(tick, i) == (other.from_tick)(tick, i)
    }

    /// Whether `self` is `before` moved `n` pulls along its stream.
    pub open spec fn follows(self, before: Playback, n: nat) -> bool {
        &&& forall|i: nat| #[trigger] (self.upcoming)(i) == (before.upcoming)(i + n)
        &&& self.same_material(before)
    }

    /// Whether `self` is `before` reset.
    pub open spec fn restarts(self, before: Playback) -> bool {
        &&& forall|i: nat| #[trigger] (self.upcoming)(i) == (before.from_start)(i)
        &&& self.same_material(before)
    }

    /// Whether `self` is `before` moved to `tick`.
    pub open spec fn resumes(self, before: Playback, tick: usize) -> bool {
        &&& forall|i: nat| #[trigger] (self.upcoming)(i) == (before.from_tick)(tick, i)
        &&& self.same_material(before)
    }

    /// Whether every pull from now on yields nothing.
    pub open spec fn depleted(self) -> bool {
        forall|i: nat| #[trigger] (self.upcoming)(i) is None
    }
}

/// A stereo source that is pulled frame by frame and can be repositioned.
///
/// The playback is the model that the contracts speak of. A source that is
/// verified says what it is. One that is not leaves it as it stands here, a
/// function of its state of which nothing more is known, and is trusted to
/// behave as the contracts say.
pub trait PlayHandle: Send + Sync {
    /// What the handle will play.
    open spec fn playback(&self) -> Playback {
        arbitrary::<spec_fn(&Self) -> Playback>()(self)
    }

    /// Yields the next frame, or nothing where the source has none at this
    /// position, and moves on.
    fn next(&mut self) -> (frame: Option<Frame>)
        ensures
            frame == (old(self).playback().upcoming)(0),
            final(self).playback().follows(old(self).playback(), 1),
    ;

    /// Brings the handle back to where it starts to play.
    fn reset(&mut self)
        ensures
            final(self).playback().restarts(old(self).playback()),
    ;

    /// Moves the handle to `tick`. What a tick is, and what becomes of one
    /// past the end, the source defines.
    fn jump(&mut self, tick: usize)
        ensures
            final(self).playback().resumes(old(self).playback(), tick),
    ;

    /// Mixes the next `frames.len()` pulls into `frames`, slot by slot: a
    /// frame is added to its slot, channel by channel, and a pull that yields
    /// nothing leaves its slot as it is. Gives the number of slots that a
    /// frame was added to.
    fn write(&mut self, frames: &mut [Frame]) -> (written: Option<usize>)
        ensures
            final(frames)@.len() == old(frames)@.len(),
            forall|i: int|
                0 <= i < old(frames)@.len() ==> #[trigger] final(frames)@[i] == mixed(
                    old(frames)@[i],
                    (old(self).playback().upcoming)(i as nat),
                ),
            written matches Some(count) && count <= old(frames)@.len() && count == frames_among(
                old(self).playback().pulls(old(frames)@.len()),
            ),
            final(self).playback().follows(old(self).playback(), old(frames)@.len()),
    {
        let n: usize = frames.len();
        let mut written: usize = 0;
        let mut k: usize = 0;
        while k < n
            invariant
                k <= n,
                n == old(frames)@.len(),
                frames@.len() == n,
                forall|i: int|
                    0 <= i < k ==> #[trigger] frames@[i] == mixed(
                        old(frames)@[i],
                        (old(self).playback().upcoming)(i as nat),
                    ),
                forall|i: int| k <= i < n ==> #[trigger] frames@[i] == old(frames)@[i],
                written == frames_among(old(self).playback().pulls(k as nat)),
                written <= k,
                self.playback().follows(old(self).playback(), k as nat),
            decreases n - k,
        {
            let ghost before = self.playback();
            proof {
                let start = old(self).playback();
                assert(start.pulls((k + 1) as nat).drop_last() =~= start.pulls(k as nat));
                assert(start.pulls((k + 1) as nat).last() == (start.upcoming)(k as nat));
                assert((before.upcoming)(0) == (start.upcoming)((0 + k) as nat));
            }
            match self.next() {
                Some(f) => {
                    let slot: Frame = frames[k];
                    frames[k] = [
                        Sample { bits: plus(slot[0].bits, f[0].bits) },
                        Sample { bits: plus(slot[1].bits, f[1].bits) },
                    ];
                    written = written + 1;
                },
                None => {},
            }
            proof {
                lemma_follows_on(old(self).playback(), k as nat, before, 1, self.playback());
            }
            k = k + 1;
        }
        Some(written)
    }
}

/// A boxed handle is a handle: it plays what the handle in the box plays.
impl PlayHandle for Box<dyn PlayHandle> {
    open spec fn playback(&self) -> Playback {
        (**self).playback()
    }

    fn next(&mut self) -> (frame: Option<Frame>) {
        (**self).next()
    }

    fn reset(&mut self) {
        (**self).reset()
    }

    fn jump(&mut self, tick: usize) {
        (**self).jump(tick)
    }
}

/// Moving on by `n` pulls and then by `m` is moving on by `n + m`.
pub proof fn lemma_follows_on(start: Playback, n: nat, middle: Playback, m: nat, end: Playback)
    requires
        middle.follows(start, n),
        end.follows(middle, m),
    ensures
        end.follows(start, n + m),
{
    assert forall|i: nat| #[trigger] (end.upcoming)(i) == (start.upcoming)(i + (n + m)) by {
        assert((end.upcoming)(i) == (middle.upcoming)(i + m));
        assert((middle.upcoming)(i + m) == (start.upcoming)(i + m + n));
    }
}

/// A second reset changes nothing that can be observed: after it the handle
/// plays, restarts and jumps as after the first.
pub proof fn lemma_reset_is_idempotent(start: Playback, once: Playback, twice: Playback)
    requires
        once.restarts(start),
        twice.restarts(once),
    ensures
        twice.same_stream(once),
        twice.same_material(once),
{
    assert forall|i: nat| #[trigger] (twice.upcoming)(i) == (once.upcoming)(i) by {
        assert((twice.upcoming)(i) == (once.from_start)(i));
        assert((once.from_start)(i) == (start.from_start)(i));
    }
}

/// However far a handle has been played, a reset brings back the stream that
/// a reset brings on the handle as it first was.
pub proof fn lemma_reset_restarts(
    fresh: Playback,
    fresh_reset: Playback,
    used: Playback,
    used_reset: Playback,
)
    requires
        used.same_material(fresh),
        fresh_reset.restarts(fresh),
        used_reset.restarts(used),
    ensures
        used_reset.same_stream(fresh_reset),
{
    assert forall|i: nat| #[trigger] (used_reset.upcoming)(i) == (fresh_reset.upcoming)(i) by {
        assert((fresh_reset.upcoming)(i) == (fresh.from_start)(i));
        assert((used_reset.upcoming)(i) == (used.from_start)(i));
    }
}

/// Pulls, resets and jumps, however many, leave the material as it is.
pub proof fn lemma_same_material_on(a: Playback, b: Playback, c: Playback)
    requires
        b.same_material(a),
        c.same_material(b),
    ensures
        c.same_material(a),
{
    assert forall|i: nat| #[trigger] (c.from_start)(i) == (a.from_start)(i) by {
        assert((c.from_start)(i) == (b.from_start)(i));
    }
    assert forall|tick: usize, i: nat| #[trigger]
        (c.from_tick)(tick, i) == (a.from_tick)(tick, i) by {
        assert((c.from_tick)(tick, i) == (b.from_tick)(tick, i));
    }
}

/// A depleted handle stays depleted however often it is pulled: only a reset
/// or a jump brings frames back.
pub proof fn lemma_depleted_stays(before: Playback, after: Playback)
    requires
        before.depleted(),
        after.follows(before, 1),
    ensures
        (before.upcoming)(0) is None,
        after.depleted(),
{
    assert forall|i: nat| #[trigger] (after.upcoming)(i) is None by {
        assert((before.upcoming)(i + 1) is None);
    }
}

/// A depleted handle mixes nothing into a buffer: no slot changes and the
/// count is zero.
pub proof fn lemma_depleted_adds_nothing(p: Playback, slot: Frame, n: nat, i: nat)
    requires
        p.depleted(),
    ensures
        mixed(slot, (p.upcoming)(i)) == slot,
        frames_among(p.pulls(n)) == 0,
{
    assert((p.upcoming)(i) is None);
    let pulls = p.pulls(n);
    assert forall|k: int| 0 <= k < pulls.len() implies #[trigger] pulls[k] is None by {
        assert((p.upcoming)(k as nat) is None);
    }
    lemma_frames_among_none(pulls);
}

} // verus!
