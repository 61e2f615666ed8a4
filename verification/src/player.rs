//! The player's decisions: canvas size from the terminal size, what each
//! key does to the playback controls, and the chart clock that stands
//! still while paused. (The terminal, the audio device and the wall clock
//! are driven outside this library.)

use vstd::prelude::*;

verus! {

/// The canvas (cols x rows) for a terminal: full width minus one safety
/// column (so the last char never auto-wraps), full height minus two rows
/// for the HUD; at least 20 x 12.
pub fn canvas_dims(term_w: u16, term_h: u16) -> (r: (u16, u16))
    ensures
        r.0 == (if term_w >= 21 { term_w - 1 } else { 20 }),
        r.1 == (if term_h >= 14 { term_h - 2 } else { 12 }),
{
    let w = if term_w >= 1 {
        term_w - 1
    } else {
        0
    };
    let h = if term_h >= 2 {
        term_h - 2
    } else {
        0
    };
    (if w > 20 {
        w
    } else {
        20
    }, if h > 12 {
        h
    } else {
        12
    })
}

/// A key press, as the player reads it.
#[derive(Clone, Copy, Debug, PartialEq, Eq, Structural)]
pub enum Key {
    /// `q` or Esc
    Quit,
    /// Ctrl+C
    Interrupt,
    /// `+` or `=`
    OffsetUp,
    /// `-`
    OffsetDown,
    /// Up arrow
    SpeedUp,
    /// Down arrow
    SpeedDown,
    /// `p`
    Pause,
    /// `m`
    Mute,
    /// `b`
    CycleBackground,
    Other,
}

/// What the player must do after a key.
#[derive(Clone, Copy, Debug, PartialEq, Eq, Structural)]
pub enum Action {
    Nothing,
    /// Leave the loop.
    Stop,
    /// Move the chart offset by one nudge (0.05 s) in this direction.
    NudgeOffset(i8),
    /// Pause the audio and the chart clock.
    Pause,
    /// Resume the audio and the chart clock.
    Resume,
    /// Set the audio volume to 0 (`true`) or back to normal (`false`).
    SetMuted(bool),
    /// Step the background dim level.
    CycleBackground,
}

/// Playback controls the keys change.
#[derive(Clone, Copy, Debug, PartialEq, Eq, Structural)]
pub struct Controls {
    /// Note travel speed, 1..=10.
    pub speed: u8,
    pub paused: bool,
    pub muted: bool,
    pub running: bool,
}

impl Controls {
    pub open spec fn wf(&self) -> bool {
        1 <= self.speed <= 10
    }

    /// Start running, unpaused, unmuted, at `speed` clamped to 1..=10.
    pub fn new(speed: u8) -> (r: Controls)
        ensures
            r.wf(),
            r.speed == (if speed < 1 { 1 } else if speed > 10 { 10 } else { speed }),
            !r.paused && !r.muted && r.running,
    {
        let s = if speed < 1 {
            1
        } else if speed > 10 {
            10
        } else {
            speed
        };
        Controls { speed: s, paused: false, muted: false, running: true }
    }

    /// Apply a key.
    pub fn handle(&mut self, key: Key) -> (a: Action)
        requires
            old(self).wf(),
        ensures
            final(self).wf(),
            a == handle_spec(*old(self), key).1,
            *final(self) == handle_spec(*old(self), key).0,
    {
        match key {
            Key::Quit | Key::Interrupt => {
                self.running = false;
                Action::Stop
            },
            Key::OffsetUp => Action::NudgeOffset(1),
            Key::OffsetDown => Action::NudgeOffset(-1),
            Key::SpeedUp => {
                self.speed = if self.speed < 10 {
                    self.speed + 1
                } else {
                    10
                };
                Action::Nothing
            },
            Key::SpeedDown => {
                self.speed = if self.speed > 1 {
                    self.speed - 1
                } else {
                    1
                };
                Action::Nothing
            },
            Key::Pause => {
                self.paused = !self.paused;
                if self.paused {
                    Action::Pause
                } else {
                    Action::Resume
                }
            },
            Key::Mute => {
                self.muted = !self.muted;
                Action::SetMuted(self.muted)
            },
            Key::CycleBackground => Action::CycleBackground,
            Key::Other => Action::Nothing,
        }
    }
}

/// The controls after a key, and the action it asks for.
pub open spec fn handle_spec(c: Controls, key: Key) -> (Controls, Action) {
    match key {
        Key::Quit | Key::Interrupt => (Controls { running: false, ..c }, Action::Stop),
        Key::OffsetUp => (c, Action::NudgeOffset(1i8)),
        Key::OffsetDown => (c, Action::NudgeOffset(-1i8)),
        Key::SpeedUp => (Controls { speed: if c.speed < 10 { (c.speed + 1) as u8 } else { 10 }, ..c }, Action::Nothing),
        Key::SpeedDown => (Controls { speed: if c.speed > 1 { (c.speed - 1) as u8 } else { 1 }, ..c }, Action::Nothing),
        Key::Pause => (
            Controls { paused: !c.paused, ..c },
            if !c.paused { Action::Pause } else { Action::Resume },
        ),
        Key::Mute => (Controls { muted: !c.muted, ..c }, Action::SetMuted(!c.muted)),
        Key::CycleBackground => (c, Action::CycleBackground),
        Key::Other => (c, Action::Nothing),
    }
}

/// Law: pressing pause twice returns to the same controls, and the second
/// press resumes what the first one paused.
pub proof fn lemma_pause_twice(c: Controls)
    ensures
        handle_spec(handle_spec(c, Key::Pause).0, Key::Pause).0 == c,
        !c.paused ==> handle_spec(c, Key::Pause).1 == Action::Pause && handle_spec(handle_spec(c, Key::Pause).0, Key::Pause).1 == Action::Resume,
{
}

/// Law: the arrows step the speed by one: Up raises it below the cap and
/// Down lowers it above the floor, so Down undoes Up and Up undoes Down;
/// no other key changes the speed.
pub proof fn lemma_speed_steps(c: Controls, key: Key)
    requires
        c.wf(),
    ensures
        c.speed < 10 ==> handle_spec(c, Key::SpeedUp).0.speed == c.speed + 1,
        c.speed == 10 ==> handle_spec(c, Key::SpeedUp).0.speed == 10,
        c.speed > 1 ==> handle_spec(c, Key::SpeedDown).0.speed == c.speed - 1,
        c.speed == 1 ==> handle_spec(c, Key::SpeedDown).0.speed == 1,
        c.speed < 10 ==> handle_spec(handle_spec(c, Key::SpeedUp).0, Key::SpeedDown).0 == c,
        c.speed > 1 ==> handle_spec(handle_spec(c, Key::SpeedDown).0, Key::SpeedUp).0 == c,
        key != Key::SpeedUp && key != Key::SpeedDown ==> handle_spec(c, key).0.speed == c.speed,
{
}

/// Law: the speed stays within 1..=10 whatever key is pressed.
pub proof fn lemma_speed_in_range(c: Controls, key: Key)
    requires
        c.wf(),
    ensures
        handle_spec(c, key).0.wf(),
{
}

/// The chart clock in nanoseconds since playback started: wall time minus
/// the time spent paused; while paused it stands still.
#[derive(Clone, Copy, Debug, PartialEq, Eq, Structural)]
pub struct PauseClock {
    /// Total nanoseconds spent in finished pauses.
    pub paused_total: u64,
    /// Wall time (since start) at which the current pause began.
    pub paused_at: Option<u64>,
}

/// Chart time at wall time `now`: `now` less the current pause's length and
/// less the finished pauses, never below 0.
pub open spec fn chart_time_spec(c: PauseClock, now: u64) -> int {
    let a: int = match c.paused_at {
        Some(p) => if now >= p { now - (now - p) } else { now as int },
        None => now as int,
    };
    if a >= c.paused_total { a - c.paused_total } else { 0 }
}

impl PauseClock {
    pub fn new() -> (r: PauseClock)
        ensures
            r.paused_total == 0,
            r.paused_at is None,
    {
        PauseClock { paused_total: 0, paused_at: None }
    }

    /// Chart time at wall time `now` (nanoseconds since start).
    pub fn chart_time(&self, now: u64) -> (r: u64)
        ensures
            r == chart_time_spec(*self, now),
    {
        let a = match self.paused_at {
            Some(p) => if now >= p {
                now - (now - p)
            } else {
                now
            },
            None => now,
        };
        if a >= self.paused_total {
            a - self.paused_total
        } else {
            0
        }
    }

    /// Start a pause at `now`.
    pub fn pause(&mut self, now: u64)
        ensures
            final(self).paused_at == Some(now),
            final(self).paused_total == old(self).paused_total,
    {
        self.paused_at = Some(now);
    }

    /// End the current pause at `now` (if any), adding its length to the
    /// finished pauses (saturating).
    pub fn resume(&mut self, now: u64)
        ensures
            final(self).paused_at is None,
            final(self).paused_total == match old(self).paused_at {
                Some(p) => {
                    let d: int = if now >= p { now - p } else { 0 };
                    if old(self).paused_total + d <= u64::MAX { (old(self).paused_total + d) as u64 } else { u64::MAX }
                },
                None => old(self).paused_total,
            },
    {
        if let Some(p) = self.paused_at {
            let d = if now >= p {
                now - p
            } else {
                0
            };
            self.paused_total = if self.paused_total <= u64::MAX - d {
                self.paused_total + d
            } else {
                u64::MAX
            };
        }
        self.paused_at = None;
    }
}

/// Law: while paused, the chart clock stands still.
pub proof fn lemma_clock_stands_still(c: PauseClock, t1: u64, t2: u64)
    requires
        c.paused_at matches Some(p) && p <= t1 && p <= t2,
    ensures
        chart_time_spec(c, t1) == chart_time_spec(c, t2),
{
}

/// Law: a pause from `p` to `q` holds the chart clock back by exactly
/// `q - p` afterwards.
pub proof fn lemma_pause_resume_shift(total: u64, p: u64, q: u64, now: u64)
    requires
        p <= q <= now,
        total + (q - p) <= now,
    ensures
        chart_time_spec(PauseClock { paused_total: (total + (q - p)) as u64, paused_at: None }, now) == now - total - (q - p),
        chart_time_spec(PauseClock { paused_total: total, paused_at: Some(p) }, q) == if p >= total { p - total } else { 0 },
{
}

} // verus!
