use vstd::prelude::*;
use crate::config::Config;

verus! {

/// A measured frame rate: `frames` frames shown in `nanos` nanoseconds.
/// Before any measurement both are zero, which stands for a rate of zero.
#[derive(Clone, Copy, Debug, PartialEq, Eq, Structural)]
pub struct FpsRate {
    pub frames: u64,
    pub nanos: u128,
}

/// What a frame counter holds: the last measured rate, and the time and
/// frames seen since the last measurement.
pub struct FpsState {
    pub fps: FpsRate,
    pub time_acc: nat,
    pub frames_acc: nat,
}

/// The counter after one frame that took `dt` nanoseconds. Once more time
/// than `interval` has gathered, the rate is measured over all of it and the
/// gathered time and frames start again from zero.
pub open spec fn update_spec(s: FpsState, interval: nat, dt: nat) -> FpsState {
    let t = s.time_acc + dt;
    let f = if s.frames_acc + 1 <= u64::MAX { s.frames_acc + 1 } else { u64::MAX as nat };
    if t > interval {
        FpsState { fps: FpsRate { frames: f as u64, nanos: t as u128 }, time_acc: 0, frames_acc: 0 }
    } else {
        FpsState { fps: s.fps, time_acc: t, frames_acc: f }
    }
}

/// The counter after `n` frames that each took `dt` nanoseconds.
pub open spec fn repeat_update_spec(s: FpsState, interval: nat, dt: nat, n: nat) -> FpsState
    decreases n,
{
    if n == 0 {
        s
    } else {
        update_spec(repeat_update_spec(s, interval, dt, (n - 1) as nat), interval, dt)
    }
}

/// The counter after frames of the given durations, and the nanoseconds
/// covered by the windows that closed on the way.
pub open spec fn fps_run_spec(s: FpsState, interval: nat, dts: Seq<u64>) -> (FpsState, nat)
    decreases dts.len(),
{
    if dts.len() == 0 {
        (s, 0)
    } else {
        let (st, closed) = fps_run_spec(s, interval, dts.drop_last());
        let dt = dts.last() as nat;
        let next = update_spec(st, interval, dt);
        if st.time_acc + dt > interval {
            (next, closed + st.time_acc + dt)
        } else {
            (next, closed)
        }
    }
}

/// Tracks frames per second over windows of the configured length.
pub struct FpsCounter<'a> {
    fps: FpsRate,
    time_acc: u128,
    frames_acc: u64,
    config: &'a Config,
}

impl<'a> View for FpsCounter<'a> {
    type V = FpsState;

    closed spec fn view(&self) -> FpsState {
        FpsState { fps: self.fps, time_acc: self.time_acc as nat, frames_acc: self.frames_acc as nat }
    }
}

impl<'a> FpsCounter<'a> {
    /// The length of a measuring window, in nanoseconds.
    pub closed spec fn interval(&self) -> nat {
        self.config.fps_interval as nat
    }

    /// The gathered time never exceeds one window.
    pub closed spec fn wf(&self) -> bool {
        self.time_acc <= self.config.fps_interval
    }

    pub fn new(config: &'a Config) -> (r: FpsCounter<'a>)
        ensures
            r.wf(),
            r.interval() == config.fps_interval,
            r@.time_acc <= r.interval() <= u64::MAX,
            r@.fps == (FpsRate { frames: 0, nanos: 0 }),
            r@.time_acc == 0,
            r@.frames_acc == 0,
    {
        FpsCounter { fps: FpsRate { frames: 0, nanos: 0 }, time_acc: 0, frames_acc: 0, config: config }
    }

    /// The last measured rate.
    pub fn fps(&self) -> (r: FpsRate)
        ensures
            r == self@.fps,
    {
        self.fps
    }

    /// Nanoseconds gathered since the last measurement.
    pub fn time_acc(&self) -> (r: u128)
        ensures
            r == self@.time_acc,
    {
        self.time_acc
    }

    /// Frames counted since the last measurement.
    pub fn frames_acc(&self) -> (r: u64)
        ensures
            r == self@.frames_acc,
    {
        self.frames_acc
    }

    /// Counts one frame that took `dt` nanoseconds.
    pub fn update(&mut self, dt: u64)
        requires
            old(self).wf(),
        ensures
            final(self).wf(),
            final(self).interval() == old(self).interval(),
            final(self)@.time_acc <= final(self).interval() <= u64::MAX,
            final(self)@ == update_spec(old(self)@, old(self).interval(), dt as nat),
    {
        let t: u128 = self.time_acc + dt as u128;
        let f: u64 = if self.frames_acc < u64::MAX { self.frames_acc + 1 } else { u64::MAX };
        if t > self.config.fps_interval as u128 {
            self.fps = FpsRate { frames: f, nanos: t };
            self.time_acc = 0;
            self.frames_acc = 0;
        } else {
            self.time_acc = t;
            self.frames_acc = f;
        }
    }
}

/// Starting from an empty window, frames of `dt` nanoseconds each leave the
/// rate untouched while `n` of them fit in the window; the frame after that
/// overshoots it, so the rate is measured as `n + 1` frames over the
/// `(n + 1) * dt` nanoseconds that passed, and the window starts again empty.
pub proof fn lemma_window_closes_after_overshoot(s: FpsState, interval: nat, dt: nat, n: nat)
    requires
        s.time_acc == 0,
        s.frames_acc == 0,
        interval <= u64::MAX,
        dt <= u64::MAX,
        n + 1 <= u64::MAX,
        n * dt <= interval < (n + 1) * dt,
    ensures
        repeat_update_spec(s, interval, dt, n) == (FpsState { fps: s.fps, time_acc: n * dt, frames_acc: n }),
        repeat_update_spec(s, interval, dt, n + 1) == (FpsState {
            fps: FpsRate { frames: (n + 1) as u64, nanos: ((n + 1) * dt) as u128 },
            time_acc: 0,
            frames_acc: 0,
        }),
{
    lemma_steady_before_window_closes(s, interval, dt, n);
    assert((n + 1) * dt == n * dt + dt) by (nonlinear_arith);
}

proof fn lemma_steady_before_window_closes(s: FpsState, interval: nat, dt: nat, k: nat)
    requires
        s.time_acc == 0,
        s.frames_acc == 0,
        k <= u64::MAX,
        k * dt <= interval,
    ensures
        repeat_update_spec(s, interval, dt, k) == (FpsState { fps: s.fps, time_acc: k * dt, frames_acc: k }),
    decreases k,
{
    if k > 0 {
        let j = (k - 1) as nat;
        assert(k * dt == j * dt + dt) by (nonlinear_arith)
            requires k == j + 1;
        lemma_steady_before_window_closes(s, interval, dt, j);
    } else {
        assert(k * dt == 0) by (nonlinear_arith)
            requires k == 0;
    }
}

} // verus!
