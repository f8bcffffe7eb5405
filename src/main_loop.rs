use vstd::prelude::*;
use vstd::arithmetic::div_mod::lemma_fundamental_div_mod_converse;
use crate::config::{Config, NANOS_PER_SEC, positive_period};
use crate::fps::{FpsCounter, FpsState, update_spec, fps_run_spec};
use crate::ratio::Ratio;

verus! {

/// Something that happened during one turn of the viewer's loop.
#[derive(Clone, Copy, Debug, PartialEq, Eq, Structural)]
pub enum LoopEvent {
    /// A new iteration began, `dt` nanoseconds after the previous one.
    Frame { dt: u64 },
    /// Polling the connection failed, but may succeed later.
    PollFailed,
    /// The user asked the viewer to close.
    Exit,
    /// The window or the connection failed for good.
    Fatal,
}

/// What the loop should do in answer to an event.
#[derive(Clone, Copy, Debug, PartialEq, Eq, Structural)]
pub enum LoopAction {
    /// Advance the animation by this many fixed steps, then poll and render.
    Animate { steps: u128 },
    /// Go on as if nothing had happened.
    Continue,
    /// Leave the loop cleanly.
    Stop,
    /// Leave the loop and report the failure.
    Fail,
}

/// The length of one animation step, counted in units of `1 / den`
/// nanoseconds, where `den` is the denominator of the animation period.
/// Animation debt is kept in the same units, so that it stays exact.
pub open spec fn step_units(c: Config) -> nat {
    (c.animation_framerate.num * NANOS_PER_SEC) as nat
}

/// `dt` nanoseconds in the units of `step_units`.
pub open spec fn elapsed_units(c: Config, dt: nat) -> nat {
    dt * (c.animation_framerate.den as nat)
}

/// Fixed-step catch-up: the number of whole animation steps that the debt
/// plus the elapsed time pays for, and the debt left over.
pub open spec fn fixed_step_spec(c: Config, debt: nat, dt: nat) -> (nat, nat) {
    let total = debt + elapsed_units(c, dt);
    (total / step_units(c), total % step_units(c))
}

/// The steps taken in all and the debt left after frames of the given
/// durations, starting with no debt.
pub open spec fn run_frames_spec(c: Config, dts: Seq<u64>) -> (nat, nat)
    decreases dts.len(),
{
    if dts.len() == 0 {
        (0, 0)
    } else {
        let (steps, debt) = run_frames_spec(c, dts.drop_last());
        let (more, left) = fixed_step_spec(c, debt, dts.last() as nat);
        (steps + more, left)
    }
}

/// The sum of the durations, in nanoseconds.
pub open spec fn total_elapsed(dts: Seq<u64>) -> nat
    decreases dts.len(),
{
    if dts.len() == 0 {
        0
    } else {
        total_elapsed(dts.drop_last()) + dts.last() as nat
    }
}

/// No time is created or lost by fixed stepping: over any frames, the steps
/// taken times the step length plus the debt left equal the time elapsed;
/// and the debt left is less than one step.
pub proof fn lemma_time_is_conserved(c: Config, dts: Seq<u64>)
    requires
        positive_period(c.animation_framerate),
    ensures
        run_frames_spec(c, dts).0 * step_units(c) + run_frames_spec(c, dts).1
            == elapsed_units(c, total_elapsed(dts)),
        run_frames_spec(c, dts).1 < step_units(c),
    decreases dts.len(),
{
    let p = step_units(c);
    assert(p > 0) by (nonlinear_arith)
        requires p == c.animation_framerate.num * NANOS_PER_SEC, c.animation_framerate.num > 0;
    if dts.len() > 0 {
        lemma_time_is_conserved(c, dts.drop_last());
        let (steps, debt) = run_frames_spec(c, dts.drop_last());
        let dt = dts.last() as nat;
        let total = debt + elapsed_units(c, dt);
        vstd::arithmetic::div_mod::lemma_fundamental_div_mod(total as int, p as int);
        let den = c.animation_framerate.den as nat;
        let prev = total_elapsed(dts.drop_last());
        assert(elapsed_units(c, prev + dt) == elapsed_units(c, prev) + elapsed_units(c, dt))
            by (nonlinear_arith)
            requires
                elapsed_units(c, prev + dt) == (prev + dt) * den,
                elapsed_units(c, prev) == prev * den,
                elapsed_units(c, dt) == dt * den;
        let more = total / p;
        let left = total % p;
        assert(run_frames_spec(c, dts) == (steps + more, left));
        assert(total_elapsed(dts) == prev + dt);
        assert(total == more * p + left);
        assert((steps + more) * p == steps * p + more * p) by (nonlinear_arith);
    } else {
        assert(elapsed_units(c, 0) == 0) by (nonlinear_arith)
            requires elapsed_units(c, 0) == 0 * (c.animation_framerate.den as nat);
        assert(0 * p == 0);
    }
}

/// No time is lost by frame-rate measurement either: the time of the windows
/// that closed plus the time gathered in the open one equal the time gathered
/// at the start plus the time elapsed.
pub proof fn lemma_fps_windows_conserve_time(s: FpsState, interval: nat, dts: Seq<u64>)
    ensures
        fps_run_spec(s, interval, dts).1 + fps_run_spec(s, interval, dts).0.time_acc
            == s.time_acc + total_elapsed(dts),
    decreases dts.len(),
{
    if dts.len() > 0 {
        lemma_fps_windows_conserve_time(s, interval, dts.drop_last());
    }
}

/// The state of the viewer's loop.
pub struct LoopState {
    pub fps: FpsState,
    /// Unspent animation time, in the units of `step_units`.
    pub debt: nat,
    pub running: bool,
}

/// The loop's answer to one event: the next state and the action to take.
/// After the loop has stopped, every event is answered with `Stop`.
pub open spec fn handle_spec(c: Config, s: LoopState, ev: LoopEvent) -> (LoopState, LoopAction) {
    if !s.running {
        (s, LoopAction::Stop)
    } else {
        match ev {
            LoopEvent::Frame { dt } => {
                let (steps, debt) = fixed_step_spec(c, s.debt, dt as nat);
                (
                    LoopState { fps: update_spec(s.fps, c.fps_interval as nat, dt as nat), debt, running: true },
                    LoopAction::Animate { steps: steps as u128 },
                )
            },
            LoopEvent::PollFailed => (s, LoopAction::Continue),
            LoopEvent::Exit => (LoopState { running: false, ..s }, LoopAction::Stop),
            LoopEvent::Fatal => (LoopState { running: false, ..s }, LoopAction::Fail),
        }
    }
}

/// The smallest whole number of nanoseconds that is not shorter than the period.
pub open spec fn period_nanos_ceil(p: Ratio) -> nat {
    ((p.num * NANOS_PER_SEC + p.den - 1) / p.den as int) as nat
}

/// How long to wait at the end of an iteration that took `elapsed`
/// nanoseconds: what is left of the render period when rendering is capped,
/// and nothing otherwise.
pub open spec fn throttle_spec(c: Config, elapsed: nat) -> nat {
    match c.max_render_framerate {
        Some(p) => if period_nanos_ceil(p) > elapsed { (period_nanos_ceil(p) - elapsed) as nat } else { 0 },
        None => 0,
    }
}

/// The scheduler of one viewing session: frame-rate measurement, fixed-step
/// animation timing and render throttling.
pub struct MainLoop<'a> {
    config: &'a Config,
    fps: FpsCounter<'a>,
    debt: u128,
    running: bool,
}

impl<'a> View for MainLoop<'a> {
    type V = LoopState;

    closed spec fn view(&self) -> LoopState {
        LoopState { fps: self.fps@, debt: self.debt as nat, running: self.running }
    }
}

impl<'a> MainLoop<'a> {
    /// The configuration that the loop runs under.
    pub closed spec fn config(&self) -> Config {
        *self.config
    }

    pub closed spec fn wf(&self) -> bool {
        &&& self.config.wf()
        &&& self.fps.wf()
        &&& self.fps.interval() == self.config.fps_interval
        &&& self.debt < step_units(*self.config)
    }

    /// Starts a session over `model_count` models. With no model there is
    /// nothing to show, and no loop is started.
    pub fn start(config: &'a Config, model_count: usize) -> (r: Option<MainLoop<'a>>)
        requires
            config.wf(),
        ensures
            r is None <==> model_count == 0,
            r matches Some(m) ==> m.wf() && m.config() == *config && m@.running && m@.debt == 0
                && m@.fps.time_acc == 0 && m@.fps.frames_acc == 0 && m@.fps.fps.frames == 0
                && m@.fps.fps.nanos == 0,
    {
        if model_count == 0 {
            return None;
        }
        proof {
            let c = *config;
            assert(step_units(c) > 0) by (nonlinear_arith)
                requires step_units(c) == c.animation_framerate.num * NANOS_PER_SEC,
                    c.animation_framerate.num > 0;
        }
        Some(MainLoop { config, fps: FpsCounter::new(config), debt: 0, running: true })
    }

    /// The frame counter of the session.
    pub fn fps_counter(&self) -> (r: &FpsCounter<'a>)
        ensures
            r@ == self@.fps,
    {
        &self.fps
    }

    /// Unspent animation time, in the units of `step_units`.
    pub fn animation_debt(&self) -> (r: u128)
        ensures
            r == self@.debt,
    {
        self.debt
    }

    /// Whether the loop still runs.
    pub fn is_running(&self) -> (r: bool)
        ensures
            r == self@.running,
    {
        self.running
    }

    /// Pays the animation debt after `dt` more nanoseconds: returns the
    /// number of fixed steps to take and keeps what is left.
    fn fixed_step(&mut self, dt: u64) -> (steps: u128)
        requires
            old(self).wf(),
        ensures
            final(self).wf(),
            final(self).config() == old(self).config(),
            final(self).fps == old(self).fps,
            final(self).running == old(self).running,
            (steps as nat, final(self).debt as nat) == fixed_step_spec(old(self).config(), old(self).debt as nat, dt as nat),
    {
        let c = self.config;
        let p: u128 = c.animation_framerate.num as u128 * NANOS_PER_SEC as u128;
        proof {
            let a = dt as nat;
            let b = c.animation_framerate.den as nat;
            assert(a * b <= u128::MAX) by (nonlinear_arith)
                requires a <= u64::MAX, b <= u64::MAX;
        }
        let x: u128 = dt as u128 * c.animation_framerate.den as u128;
        let q1 = x / p;
        let r1 = x % p;
        let y = self.debt + r1;
        let q2 = y / p;
        let left = y % p;
        proof {
            let pi = p as int;
            assert(pi >= 2);
            vstd::arithmetic::div_mod::lemma_fundamental_div_mod(x as int, pi);
            vstd::arithmetic::div_mod::lemma_fundamental_div_mod(y as int, pi);
            assert(q1 * pi <= x) by (nonlinear_arith)
                requires x == pi * q1 + r1, r1 >= 0, q1 >= 0;
            assert(q1 <= x / 2) by (nonlinear_arith)
                requires q1 * pi <= x, pi >= 2, q1 >= 0;
            assert(self.debt + x == (q1 + q2) * pi + left) by (nonlinear_arith)
                requires x == pi * q1 + r1, y == pi * q2 + left, y == self.debt + r1;
            lemma_fundamental_div_mod_converse(self.debt + x, pi, (q1 + q2) as int, left as int);
        }
        self.debt = left;
        q1 + q2
    }

    /// Answers one event of the loop.
    pub fn handle(&mut self, ev: LoopEvent) -> (r: LoopAction)
        requires
            old(self).wf(),
        ensures
            final(self).wf(),
            final(self).config() == old(self).config(),
            (final(self)@, r) == handle_spec(old(self).config(), old(self)@, ev),
    {
        if !self.running {
            return LoopAction::Stop;
        }
        match ev {
            LoopEvent::Frame { dt } => {
                self.fps.update(dt);
                let steps = self.fixed_step(dt);
                LoopAction::Animate { steps }
            },
            LoopEvent::PollFailed => LoopAction::Continue,
            LoopEvent::Exit => {
                self.running = false;
                LoopAction::Stop
            },
            LoopEvent::Fatal => {
                self.running = false;
                LoopAction::Fail
            },
        }
    }

    /// How many nanoseconds to wait after an iteration that took `elapsed`
    /// nanoseconds, so that frames are not presented faster than the cap.
    pub fn throttle_nanos(&self, elapsed: u64) -> (r: u128)
        requires
            self.wf(),
        ensures
            r == throttle_spec(self.config(), elapsed as nat),
    {
        match self.config.max_render_framerate {
            Some(p) => {
                let target: u128 = (p.num as u128 * NANOS_PER_SEC as u128 + p.den as u128 - 1) / p.den as u128;
                if target > elapsed as u128 {
                    target - elapsed as u128
                } else {
                    0
                }
            },
            None => 0,
        }
    }
}

} // verus!
