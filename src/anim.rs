//! Running instances of animations, and their wire record.
use vstd::prelude::*;

use crate::time::Duration;

verus! {

/// Identifies an animation in a table of animations.
pub type AnimID = usize;

/// The wire record of an animation instance: start time and duration in
/// microseconds, the animation's id, and a repeat flag byte.
#[derive(Clone, Copy, Debug, PartialEq, Eq, Structural)]
pub struct AnimInstance {
    t_start: u64,
    duration: u64,
    id: u32,
    repeat: u8,
}

impl AnimInstance {
    pub closed spec fn spec_t_start(self) -> u64 {
        self.t_start
    }

    pub closed spec fn spec_duration(self) -> u64 {
        self.duration
    }

    pub closed spec fn spec_id(self) -> u32 {
        self.id
    }

    pub closed spec fn spec_repeat(self) -> bool {
        self.repeat != 0
    }

    /// Build the record; the repeat flag is stored as one byte, non-zero for true.
    pub fn new(t_start: u64, duration: u64, id: u32, repeat: bool) -> (r: AnimInstance)
        ensures
            r.spec_t_start() == t_start,
            r.spec_duration() == duration,
            r.spec_id() == id,
            r.spec_repeat() == repeat,
    {
        AnimInstance {
            t_start,
            duration,
            id,
            repeat: if repeat {
                1
            } else {
                0
            },
        }
    }

    pub fn t_start(&self) -> (r: u64)
        ensures
            r == self.spec_t_start(),
    {
        self.t_start
    }

    pub fn duration(&self) -> (r: u64)
        ensures
            r == self.spec_duration(),
    {
        self.duration
    }

    pub fn id(&self) -> (r: u32)
        ensures
            r == self.spec_id(),
    {
        self.id
    }

    pub fn repeat(&self) -> (r: bool)
        ensures
            r == self.spec_repeat(),
    {
        self.repeat != 0
    }
}

/// An instance of an animation: which animation, when it began (as a
/// duration since startup), how long it lasts, and whether it repeats.
#[derive(Clone, Copy, Debug, PartialEq, Eq, Structural)]
pub struct Instance {
    pub anim_id: AnimID,
    pub t_start: Duration,
    pub duration: Duration,
    pub repeat: bool,
}

impl Instance {
    /// Read an instance from its wire record.
    pub fn from_wire(w: &AnimInstance) -> (r: Instance)
        ensures
            r.anim_id == w.spec_id() as usize,
            r.t_start.spec_us() == w.spec_t_start(),
            r.duration.spec_us() == w.spec_duration(),
            r.repeat == w.spec_repeat(),
    {
        Instance {
            anim_id: w.id() as AnimID,
            t_start: Duration::usec(w.t_start()),
            duration: Duration::usec(w.duration()),
            repeat: w.repeat(),
        }
    }

    /// The wire record of this instance. The animation id is stored in 32 bits.
    pub fn to_wire(&self) -> (r: AnimInstance)
        ensures
            r.spec_id() == self.anim_id as u32,
            r.spec_t_start() == self.t_start.spec_us(),
            r.spec_duration() == self.duration.spec_us(),
            r.spec_repeat() == self.repeat,
    {
        AnimInstance::new(self.t_start.as_usec(), self.duration.as_usec(), self.anim_id as u32, self.repeat)
    }

    /// The time elapsed into the animation at time `t`, counted from the start
    /// and, for a repeating instance, from the start of the current round.
    pub open spec fn spec_elapsed(self, t: Duration) -> int {
        if self.repeat {
            (t.spec_us() - self.t_start.spec_us()) % self.duration.spec_us()
        } else {
            t.spec_us() - self.t_start.spec_us()
        }
    }

    /// Which of the `frames` frames of the animation this instance shows at
    /// time `t`: none before it starts or after a non-repeating instance has
    /// ended, otherwise the frame whose share of the duration holds the time elapsed.
    pub fn frame_at(&self, frames: usize, t: Duration) -> (r: Option<usize>)
        requires
            frames > 0,
            self.duration.spec_us() > 0,
        ensures
            t.spec_us() < self.t_start.spec_us() ==> r is None,
            t.spec_us() >= self.t_start.spec_us() && self.spec_elapsed(t) >= self.duration.spec_us() ==> r is None,
            t.spec_us() >= self.t_start.spec_us() && self.spec_elapsed(t) < self.duration.spec_us() ==> {
                &&& r == Some((frames * self.spec_elapsed(t) / self.duration.spec_us()) as usize)
                &&& r->0 < frames
            },
    {
        if t.is_before(self.t_start) {
            return None;
        }
        let since = t.minus(self.t_start);
        let elapsed = if self.repeat {
            since.modulo(self.duration)
        } else {
            since
        };
        if elapsed.as_usec() >= self.duration.as_usec() {
            return None;
        }
        let e = elapsed.as_usec() as u128;
        let d = self.duration.as_usec() as u128;
        let n = frames as u128;
        assert(n * e < n * d) by (nonlinear_arith)
            requires
                n > 0,
                e < d,
        ;
        assert(n * e <= 0xffff_ffff_ffff_ffff * 0xffff_ffff_ffff_ffff) by (nonlinear_arith)
            requires
                n <= 0xffff_ffff_ffff_ffff,
                e <= 0xffff_ffff_ffff_ffff,
        ;
        let f = n * e / d;
        proof {
            let (ni, ei, di) = (n as int, e as int, d as int);
            assert((ni * ei) / di < ni) by (nonlinear_arith)
                requires
                    ni * ei < ni * di,
                    di > 0,
            ;
        }
        Some(f as usize)
    }

    /// The time at which this instance ends.
    pub fn end_time(&self) -> (r: Duration)
        requires
            self.t_start.spec_us() + self.duration.spec_us() <= u64::MAX,
        ensures
            r.spec_us() == self.t_start.spec_us() + self.duration.spec_us(),
    {
        self.t_start.plus(self.duration)
    }
}

} // verus!
