//! The playback clock: where in the song we are, paused or running.
//!
//! Time is passed in rather than read, so the clock is a pure function of the instants it is
//! given. Durations and instants are nanosecond counts; a duration never exceeds
//! [`DURATION_MAX`], the largest span a `std::time::Duration` holds, and every sum saturates
//! there as `Duration::saturating_add` does.
use vstd::prelude::*;

verus! {

/// The largest duration, in nanoseconds: `u64::MAX` seconds and 999_999_999 nanoseconds.
pub const DURATION_MAX: u128 = 18_446_744_073_709_551_615_999_999_999;

/// `x` clamped to the largest duration.
pub open spec fn sat_duration(x: int) -> u128 {
    if x > DURATION_MAX {
        DURATION_MAX
    } else if x < 0 {
        0
    } else {
        x as u128
    }
}

/// A clock that is either paused at `base`, or playing: at `base` when the instant `started`
/// was passed, and advancing with the instants passed after it.
#[derive(Debug, Clone, Copy)]
pub struct Clock {
    base: u128,
    started: Option<u128>,
}

pub struct ClockView {
    pub base: u128,
    pub started: Option<u128>,
}

impl View for Clock {
    type V = ClockView;

    closed spec fn view(&self) -> ClockView {
        ClockView { base: self.base, started: self.started }
    }
}

/// Where a clock is at instant `at`: its base, plus the time since it started if it is
/// playing (none if `at` is before the start), saturating.
pub open spec fn spec_now(c: ClockView, at: u128) -> u128 {
    match c.started {
        Some(s) => sat_duration(c.base + if at >= s {
            at - s
        } else {
            0
        }),
        None => c.base,
    }
}

/// A signed offset to move a clock by.
#[derive(Debug, Clone, Copy)]
pub enum SignedDuration {
    Forward(u128),
    Backward(u128),
}

pub open spec fn spec_seek_target(current: u128, delta: SignedDuration) -> u128 {
    match delta {
        SignedDuration::Forward(by) => sat_duration(current + by),
        SignedDuration::Backward(by) => sat_duration(current - by),
    }
}

/// A clock moved to `position`, clamped to the largest duration, playing on from `at` if it
/// was playing.
pub open spec fn spec_set(c: ClockView, at: u128, position: u128) -> ClockView {
    ClockView {
        base: sat_duration(position as int),
        started: if c.started is Some {
            Some(at)
        } else {
            None
        },
    }
}

pub open spec fn spec_pause(c: ClockView, at: u128) -> ClockView {
    ClockView { base: spec_now(c, at), started: None }
}

pub open spec fn spec_play(c: ClockView, at: u128) -> ClockView {
    if c.started is None {
        ClockView { base: c.base, started: Some(at) }
    } else {
        c
    }
}

impl Clock {
    /// A clock's position never passes the largest duration.
    #[verifier::type_invariant]
    spec fn within_a_duration(self) -> bool {
        self.base <= DURATION_MAX
    }

    /// A clock paused at zero.
    pub fn new() -> (r: Clock)
        ensures
            r@ == (ClockView { base: 0, started: None }),
    {
        Clock { base: 0, started: None }
    }

    /// The position at instant `at`.
    pub fn now(&self, at: u128) -> (r: u128)
        ensures
            r == spec_now(self@, at),
            self@.base <= DURATION_MAX,
    {
        proof {
            use_type_invariant(self);
        }
        match self.started {
            Some(started) => {
                let elapsed = if at >= started {
                    at - started
                } else {
                    0
                };
                if elapsed > DURATION_MAX || self.base > DURATION_MAX - elapsed {
                    DURATION_MAX
                } else {
                    self.base + elapsed
                }
            },
            None => self.base,
        }
    }

    pub fn is_playing(&self) -> (r: bool)
        ensures
            r == (self@.started is Some),
            self@.base <= DURATION_MAX,
    {
        proof {
            use_type_invariant(self);
        }
        self.started.is_some()
    }

    /// Start running from the current position; a playing clock is left alone.
    pub fn play(&mut self, at: u128)
        ensures
            final(self)@ == spec_play(old(self)@, at),
            final(self)@.base <= DURATION_MAX,
    {
        proof {
            use_type_invariant(&*self);
        }
        if self.started.is_none() {
            self.started = Some(at);
        }
    }

    /// Stop at the position reached at `at`.
    pub fn pause(&mut self, at: u128)
        ensures
            final(self)@ == spec_pause(old(self)@, at),
            final(self)@.base <= DURATION_MAX,
    {
        proof {
            use_type_invariant(&*self);
        }
        self.base = self.now(at);
        self.started = None;
    }

    /// Pause a playing clock, play a paused one.
    pub fn toggle(&mut self, at: u128)
        ensures
            final(self)@ == if old(self)@.started is Some {
                spec_pause(old(self)@, at)
            } else {
                spec_play(old(self)@, at)
            },
            final(self)@.base <= DURATION_MAX,
    {
        proof {
            use_type_invariant(&*self);
        }
        if self.is_playing() {
            self.pause(at);
        } else {
            self.play(at);
        }
    }

    /// Move the position by `delta`, saturating at zero and at the largest duration; a
    /// playing clock keeps playing from the new position.
    pub fn seek(&mut self, at: u128, delta: SignedDuration)
        ensures
            final(self)@ == spec_set(old(self)@, at, spec_seek_target(spec_now(old(self)@, at), delta)),
            final(self)@.base <= DURATION_MAX,
    {
        proof {
            use_type_invariant(&*self);
        }
        let current = self.now(at);
        let moved = match delta {
            SignedDuration::Forward(by) => {
                if by > DURATION_MAX || current > DURATION_MAX - by {
                    DURATION_MAX
                } else {
                    current + by
                }
            },
            SignedDuration::Backward(by) => {
                if by >= current {
                    0
                } else if current - by > DURATION_MAX {
                    DURATION_MAX
                } else {
                    current - by
                }
            },
        };
        self.set(at, moved);
    }

    /// Jump to `position`, keeping the clock playing or paused as it was; a position past the
    /// largest duration stops there.
    pub fn set(&mut self, at: u128, position: u128)
        ensures
            final(self)@ == spec_set(old(self)@, at, position),
            final(self)@.base <= DURATION_MAX,
    {
        proof {
            use_type_invariant(&*self);
        }
        self.base = if position > DURATION_MAX {
            DURATION_MAX
        } else {
            position
        };
        if self.started.is_some() {
            self.started = Some(at);
        }
    }

    /// Back to zero, paused.
    pub fn restart(&mut self)
        ensures
            final(self)@ == (ClockView { base: 0, started: None }),
            final(self)@.base <= DURATION_MAX,
    {
        proof {
            use_type_invariant(&*self);
        }
        self.base = 0;
        self.started = None;
    }
}

impl Default for Clock {
    fn default() -> (r: Clock)
        ensures
            r@ == (ClockView { base: 0, started: None }),
    {
        Clock::new()
    }
}

/// A paused clock reads the same at every instant.
pub proof fn lemma_paused_clock_is_frozen(c: ClockView, at: u128, t1: u128, t2: u128)
    ensures
        spec_now(spec_pause(c, at), t1) == spec_now(spec_pause(c, at), t2),
        spec_now(spec_pause(c, at), t1) == spec_now(c, at),
{
}

/// Playing from a pause resumes where it stopped and advances with the instants after it.
/// (Every `Clock` is within the largest duration: that is its type invariant, and `now`
/// states it.)
pub proof fn lemma_play_resumes(c: ClockView, at: u128, t: u128)
    requires
        c.started is None,
        c.base <= DURATION_MAX,
        at <= t,
    ensures
        spec_now(spec_play(c, at), t) == sat_duration(c.base + (t - at)),
        spec_now(spec_play(c, at), at) == c.base,
{
}

/// Toggling twice at one instant leaves the position where it was, and a clock toggled
/// from playing to paused keeps the position it had.
pub proof fn lemma_toggle_twice_keeps_position(c: ClockView, at: u128, t: u128)
    requires
        c.base <= DURATION_MAX,
    ensures
        spec_now(spec_pause(c, at), t) == spec_now(c, at),
        spec_now(spec_play(spec_pause(c, at), at), at) == spec_now(c, at),
{
}

/// Seeking forward then back by the same amount returns to the same position, unless the
/// forward move saturated; seeking back never goes below zero.
pub proof fn lemma_seek_round_trip(c: ClockView, at: u128, by: u128)
    requires
        spec_now(c, at) + by <= DURATION_MAX,
    ensures
        ({
            let there = spec_set(c, at, spec_seek_target(spec_now(c, at), SignedDuration::Forward(by)));
            let back = spec_set(there, at, spec_seek_target(spec_now(there, at), SignedDuration::Backward(by)));
            spec_now(back, at) == spec_now(c, at)
        }),
        spec_seek_target(spec_now(c, at), SignedDuration::Backward(by)) >= 0,
{
}

/// No operation takes a clock past the largest duration: a new or restarted clock starts at
/// zero, a jump is clamped, and pausing or playing a clock within it keeps it within it.
pub proof fn lemma_clock_stays_within_a_duration(c: ClockView, at: u128, position: u128)
    ensures
        spec_set(c, at, position).base <= DURATION_MAX,
        c.base <= DURATION_MAX ==> spec_pause(c, at).base <= DURATION_MAX,
        c.base <= DURATION_MAX ==> spec_play(c, at).base <= DURATION_MAX,
{
}

/// A restarted clock is paused at zero, whatever it was before.
pub proof fn lemma_restart_is_zero(t: u128)
    ensures
        spec_now(ClockView { base: 0, started: None }, t) == 0,
{
}

} // verus!
