//! Frame pacing for a driver that steps a search once per animation
//! frame: divides a monotonic nanosecond clock into frames of a fixed
//! length and reports, on each update, whether a new frame has begun and
//! how many frames went by.

use vstd::prelude::*;

verus! {

/// A frame clock: the frame length in nanoseconds and the tick the
/// current frame started at.
pub struct FrameCounter {
    pub fps: u32,
    pub frame_len_ns: u64,
    pub last_ns: u64,
}

/// What one update reports: a new frame, with the time and the number of
/// frames elapsed since the last one, or still the old frame.
#[derive(Clone, Copy, PartialEq, Eq, Debug)]
pub enum FrameUpdate {
    NewFrame { elapsed_frames: u64, elapsed_ns: u64 },
    OldFrame,
}

/// Relies on clock_ticks' `precise_time_ns`: a reading of a monotonic
/// process clock, in nanoseconds. Nothing is promised of the value.
#[verifier::external_body]
fn precise_time_ns() -> u64 {
    clock_ticks::precise_time_ns()
}

/// How `update_with_now` moves the counter from `pre` to `post` and what
/// it returns, given the clock reading `now`: more than a frame length
/// elapsed begins a new frame aligned to the frame grid; otherwise
/// nothing changes.
pub open spec fn update_now_rel(
    pre: FrameCounter,
    now_ns: u64,
    post: FrameCounter,
    r: FrameUpdate,
) -> bool {
    let elapsed = now_ns - pre.last_ns;
    &&& post.fps == pre.fps
    &&& post.frame_len_ns == pre.frame_len_ns
    &&& if elapsed > pre.frame_len_ns {
        &&& post.last_ns == now_ns - now_ns % pre.frame_len_ns
        &&& r == (FrameUpdate::NewFrame {
            elapsed_frames: ((elapsed / (pre.frame_len_ns as int)) as u64),
            elapsed_ns: elapsed as u64,
        })
    } else {
        &&& post.last_ns == pre.last_ns
        &&& r == FrameUpdate::OldFrame
    }
}

/// What `update` guarantees of the clock reading it consumed: a reading
/// at or past the frame start advances the counter as `update_with_now`
/// says; an earlier one leaves the counter untouched.
pub open spec fn update_outcome(
    pre: FrameCounter,
    now_ns: u64,
    post: FrameCounter,
    r: FrameUpdate,
) -> bool {
    if now_ns >= pre.last_ns {
        update_now_rel(pre, now_ns, post, r)
    } else {
        post == pre && r == FrameUpdate::OldFrame
    }
}

impl FrameCounter {
    /// A counter ticking `fps` frames per second, starting now.
    pub fn from_fps(fps: u32) -> (r: FrameCounter)
        requires
            fps >= 1,
        ensures
            r.fps == fps,
            r.frame_len_ns == 1_000_000_000u64 / fps as u64,
    {
        FrameCounter::from_fps_and_last(fps, precise_time_ns())
    }

    /// A counter ticking `fps` frames per second whose current frame
    /// started at `last_ns`.
    pub fn from_fps_and_last(fps: u32, last_ns: u64) -> (r: FrameCounter)
        requires
            fps >= 1,
        ensures
            r.fps == fps,
            r.frame_len_ns == 1_000_000_000u64 / fps as u64,
            r.last_ns == last_ns,
    {
        FrameCounter { fps, frame_len_ns: 1_000_000_000 / (fps as u64), last_ns }
    }

    /// Advance the counter to the clock's present reading. Whatever the
    /// clock returned, the counter either reports the frames elapsed
    /// since the last one, or — if the reading ran backwards past the
    /// frame start — stands still.
    pub fn update(&mut self) -> (r: FrameUpdate)
        requires
            old(self).frame_len_ns >= 1,
        ensures
            exists|now_ns: u64| update_outcome(*old(self), now_ns, *final (self), r),
    {
        let now = precise_time_ns();
        if now >= self.last_ns {
            let r = self.update_with_now(now);
            proof {
                assert(update_outcome(*old(self), now, *self, r));
            }
            r
        } else {
            let r = FrameUpdate::OldFrame;
            proof {
                assert(update_outcome(*old(self), now, *self, r));
            }
            r
        }
    }

    /// Advance the counter to the given clock reading.
    pub fn update_with_now(&mut self, now_ns: u64) -> (r: FrameUpdate)
        requires
            old(self).frame_len_ns >= 1,
            now_ns >= old(self).last_ns,
        ensures
            update_now_rel(*old(self), now_ns, *final (self), r),
    {
        let elapsed = now_ns - self.last_ns;
        if elapsed > self.frame_len_ns {
            self.last_ns = now_ns - now_ns % self.frame_len_ns;
            FrameUpdate::NewFrame {
                elapsed_ns: elapsed,
                elapsed_frames: elapsed / self.frame_len_ns,
            }
        } else {
            FrameUpdate::OldFrame
        }
    }
}

} // verus!
