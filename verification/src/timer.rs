//! The timer controller: how one run picks its duration (resume, fresh
//! minutes, or literal seconds), the one-tick-per-second countdown state
//! machine with its interruption flag, and the result a finished run reports.

use vstd::prelude::*;
use crate::state::SavedState;

verus! {

/// One run's configuration: the command-line duration value (positive:
/// minutes; zero or negative: literal seconds magnitude), whether any
/// resumable state must be discarded, and the state loaded at startup.
pub struct PomApp {
    pub arg_restart: bool,
    pub arg_duration: i32,
    pub saved_state: SavedState,
}

/// What a finished run reports: whether the countdown ran out on its own
/// (only then does the completion notification fire) and how many seconds
/// remain (0 on natural completion).
pub struct RunResult {
    pub completed_naturally: bool,
    pub remaining: u64,
}

/// Duration of a fresh run, in seconds: a positive request is in minutes,
/// a non-positive one is a literal seconds magnitude.
pub open spec fn fresh_duration_secs(requested: i32) -> int {
    if requested > 0 {
        requested * 60
    } else {
        -(requested as int)
    }
}

/// The duration-selection rule: positive persisted seconds resume the old
/// countdown unless a restart was forced; otherwise the request decides.
pub open spec fn effective_duration_secs(restart: bool, requested: i32, saved: u64) -> int {
    if saved > 0 && !restart {
        saved as int
    } else {
        fresh_duration_secs(requested)
    }
}

/// End-to-end model of one run of duration `d`: with `interrupt_tick ==
/// Some(k)` the interruption flag reads true at every tick numbered `k` or
/// later (ticks are 1-indexed seconds elapsed); with `None` it never does.
pub open spec fn run_model(d: u64, interrupt_tick: Option<u64>) -> RunResult {
    match interrupt_tick {
        Some(k) => if 1 <= k <= d {
            RunResult { completed_naturally: false, remaining: (d - k) as u64 }
        } else {
            RunResult { completed_naturally: true, remaining: 0 }
        },
        None => RunResult { completed_naturally: true, remaining: 0 },
    }
}

/// Resume fidelity: positive persisted seconds, with no forced restart, set
/// the effective duration to exactly the persisted value, whatever duration
/// the command line requested.
pub proof fn lemma_resume_fidelity(requested: i32, saved: u64)
    requires
        saved > 0,
    ensures
        effective_duration_secs(false, requested, saved) == saved,
{
}

/// A forced restart ignores persisted state: the effective duration is the
/// same whatever was persisted.
pub proof fn lemma_restart_ignores_state(requested: i32, saved_a: u64, saved_b: u64)
    ensures
        effective_duration_secs(true, requested, saved_a) == effective_duration_secs(
            true,
            requested,
            saved_b,
        ),
{
}

/// With no resumable state, a positive request is a duration in minutes.
pub proof fn lemma_fresh_minutes(restart: bool, requested: i32, saved: u64)
    requires
        requested > 0,
        saved == 0 || restart,
    ensures
        effective_duration_secs(restart, requested, saved) == requested * 60,
{
}

/// With no resumable state, a non-positive request is a literal seconds
/// magnitude.
pub proof fn lemma_literal_seconds(restart: bool, requested: i32, saved: u64)
    requires
        requested <= 0,
        saved == 0 || restart,
    ensures
        effective_duration_secs(restart, requested, saved) == -(requested as int),
{
}

/// A run that starts from persisted 0 behaves exactly as a fresh run of the
/// requested duration: together with the state codec's round trip this is
/// the save-0-then-load idempotence.
pub proof fn lemma_zero_state_fresh(restart: bool, requested: i32)
    ensures
        effective_duration_secs(restart, requested, 0) == fresh_duration_secs(requested),
{
}

/// Interruption invariant: a flag first observed at tick `k` within the
/// duration ends the run unfinished, with exactly `d - k` seconds remaining
/// (never negative), and the completion notification must not fire.
pub proof fn lemma_interruption(d: u64, k: u64)
    requires
        1 <= k <= d,
    ensures
        !run_model(d, Some(k)).completed_naturally,
        run_model(d, Some(k)).remaining == d - k,
{
}

/// Completion invariant: a run whose flag is never set within its duration
/// completes naturally, persists 0 seconds remaining, and the completion
/// notification fires.
pub proof fn lemma_completion(d: u64, interrupt_tick: Option<u64>)
    requires
        interrupt_tick matches Some(k) ==> k > d,
    ensures
        run_model(d, interrupt_tick).completed_naturally,
        run_model(d, interrupt_tick).remaining == 0,
{
}

/// One running countdown: its total duration, the seconds elapsed so far,
/// and whether the interruption flag has been observed set.
pub struct Countdown {
    pub duration: u64,
    pub elapsed: u64,
    pub interrupted: bool,
}

impl Countdown {
    /// A countdown never runs past its duration.
    pub open spec fn wf(self) -> bool {
        self.elapsed <= self.duration
    }

    /// The loop keeps ticking while time is left and no interruption was seen.
    pub open spec fn running_spec(self) -> bool {
        self.elapsed < self.duration && !self.interrupted
    }

    pub fn new(duration: u64) -> (c: Countdown)
        ensures
            c.duration == duration,
            c.elapsed == 0,
            !c.interrupted,
            c.wf(),
    {
        Countdown { duration, elapsed: 0, interrupted: false }
    }

    pub fn running(&self) -> (r: bool)
        ensures
            r == self.running_spec(),
    {
        self.elapsed < self.duration && !self.interrupted
    }

    /// One second passed: advance the elapsed time and record the
    /// interruption flag as read at the end of this tick.
    pub fn tick(&mut self, interrupt_flag: bool)
        requires
            old(self).wf(),
            old(self).running_spec(),
        ensures
            final(self).duration == old(self).duration,
            final(self).elapsed == old(self).elapsed + 1,
            final(self).interrupted == interrupt_flag,
            final(self).wf(),
    {
        self.elapsed = self.elapsed + 1;
        self.interrupted = interrupt_flag;
    }

    /// What a stopped countdown reports: on interruption the seconds that
    /// were still to run, on natural completion 0.
    pub fn outcome(&self) -> (r: RunResult)
        requires
            self.wf(),
            !self.running_spec(),
        ensures
            r.completed_naturally == !self.interrupted,
            r.remaining == if self.interrupted { self.duration - self.elapsed } else { 0 },
    {
        if self.interrupted {
            RunResult { completed_naturally: false, remaining: self.duration - self.elapsed }
        } else {
            RunResult { completed_naturally: true, remaining: 0 }
        }
    }
}

impl PomApp {
    /// True when this run continues a previously interrupted countdown.
    pub fn is_resume(&self) -> (r: bool)
        ensures
            r == (self.saved_state.seconds_remaining > 0 && !self.arg_restart),
    {
        self.saved_state.seconds_remaining > 0 && !self.arg_restart
    }

    /// How long this run counts down, by the duration-selection rule.
    pub fn effective_duration(&self) -> (d: u64)
        ensures
            d == effective_duration_secs(
                self.arg_restart,
                self.arg_duration,
                self.saved_state.seconds_remaining,
            ),
    {
        if self.saved_state.seconds_remaining > 0 && !self.arg_restart {
            self.saved_state.seconds_remaining
        } else if self.arg_duration > 0 {
            (self.arg_duration as u64) * 60
        } else {
            (-(self.arg_duration as i64)) as u64
        }
    }

    /// One whole run, with the interruption schedule made explicit: the flag
    /// reads true at every tick numbered `interrupt_tick` or later, never if
    /// `interrupt_tick` is `None`. Ticks are 1-indexed seconds elapsed.
    pub fn run(&self, interrupt_tick: Option<u64>) -> (r: RunResult)
        requires
            interrupt_tick matches Some(k) ==> k >= 1,
        ensures
            r == run_model(
                effective_duration_secs(
                    self.arg_restart,
                    self.arg_duration,
                    self.saved_state.seconds_remaining,
                ) as u64,
                interrupt_tick,
            ),
    {
        let d = self.effective_duration();
        let mut c = Countdown::new(d);
        while c.running()
            invariant
                c.wf(),
                c.duration == d,
                interrupt_tick matches Some(k) ==> k >= 1,
                c.interrupted <==> (interrupt_tick matches Some(k) && k <= c.elapsed),
                c.interrupted ==> (interrupt_tick matches Some(k) && k == c.elapsed),
            decreases
                c.duration - c.elapsed + (if c.interrupted { 0int } else { 1int }),
        {
            let next_tick = c.elapsed + 1;
            let flag = match interrupt_tick {
                Some(k) => k <= next_tick,
                None => false,
            };
            c.tick(flag);
        }
        c.outcome()
    }
}

} // verus!
