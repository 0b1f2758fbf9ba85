//! The tracked process, the focus timer and its one-shot alarm.

use vstd::prelude::*;
use crate::scan::{lower_of, lowercase};
use crate::session::Session;

verus! {

/// Threshold offered when the alarm settings are first opened, in seconds.
pub const DEFAULT_ALARM_SECONDS: u64 = 180;

/// Smallest threshold the alarm settings accept, in seconds.
pub const MIN_ALARM_SECONDS: u64 = 10;

/// Largest threshold the alarm settings accept, in seconds.
pub const MAX_ALARM_SECONDS: u64 = 3600;

/// `a + b`, or the largest `u64` where the sum does not fit.
pub open spec fn sat_add(a: u64, b: u64) -> u64 {
    if a + b > u64::MAX {
        u64::MAX
    } else {
        (a + b) as u64
    }
}

/// Whether the focused process, reported by its executable name, is the
/// tracked one `target`.
pub open spec fn focus_matches(target: Seq<char>, focused: Option<Seq<char>>) -> bool {
    match focused {
        Some(n) => lower_of(n) == target,
        None => false,
    }
}

/// The session after `delta_ms` milliseconds of wall-clock time: they count
/// only while the tracked process holds the focus.
pub open spec fn ticked(s: Session, delta_ms: u64) -> Session {
    if s.target_is_active {
        Session { elapsed_ms: sat_add(s.elapsed_ms, delta_ms), ..s }
    } else {
        s
    }
}

/// Whether the armed alarm is to go off now.
pub open spec fn alarm_due(s: Session) -> bool {
    match s.alarm_threshold {
        Some(t) => !s.alarm_fired && s.elapsed_ms >= t * 1000,
        None => false,
    }
}

/// The session after the alarm check.
pub open spec fn checked(s: Session) -> Session {
    if alarm_due(s) {
        Session { alarm_fired: true, ..s }
    } else {
        s
    }
}

/// The sum of a list of durations.
pub open spec fn total(d: Seq<u64>) -> int
    decreases d.len(),
{
    if d.len() == 0 {
        0
    } else {
        total(d.drop_last()) + d.last()
    }
}

/// The session after a run of frames, each of which advances the timer by
/// its duration and then checks the alarm, with the number of times the
/// alarm went off.
pub open spec fn run(s: Session, deltas: Seq<u64>) -> (Session, nat)
    decreases deltas.len(),
{
    if deltas.len() == 0 {
        (s, 0)
    } else {
        let (s1, c) = run(s, deltas.drop_last());
        let s2 = ticked(s1, deltas.last());
        (checked(s2), c + if alarm_due(s2) {
            1nat
        } else {
            0nat
        })
    }
}

/// Over any run of frames the alarm goes off at most once, and not at all
/// once it has gone off; the timer holds the focused time, saturated.
pub proof fn lemma_alarm_at_most_once(s: Session, deltas: Seq<u64>)
    ensures
        run(s, deltas).1 <= 1,
        s.alarm_fired ==> run(s, deltas).1 == 0,
        run(s, deltas).0.alarm_fired == (s.alarm_fired || run(s, deltas).1 == 1),
        run(s, deltas).0.target_is_active == s.target_is_active,
        run(s, deltas).0.alarm_threshold == s.alarm_threshold,
        s.target_is_active ==> run(s, deltas).0.elapsed_ms == if s.elapsed_ms + total(deltas)
            > u64::MAX {
            u64::MAX as int
        } else {
            s.elapsed_ms + total(deltas)
        },
    decreases deltas.len(),
{
    if deltas.len() > 0 {
        lemma_alarm_at_most_once(s, deltas.drop_last());
        let d = deltas.drop_last();
        assert(total(d) >= 0) by {
            lemma_total_nonneg(d);
        }
    }
}

proof fn lemma_total_nonneg(d: Seq<u64>)
    ensures
        total(d) >= 0,
    decreases d.len(),
{
    if d.len() > 0 {
        lemma_total_nonneg(d.drop_last());
    }
}

/// An armed alarm whose tracked process keeps the focus long enough goes
/// off exactly once.
pub proof fn lemma_alarm_fires_once(s: Session, deltas: Seq<u64>, t: u64)
    requires
        s.alarm_threshold == Some(t),
        t * 1000 <= u64::MAX,
        !s.alarm_fired,
        s.target_is_active,
        deltas.len() > 0,
        s.elapsed_ms + total(deltas) >= t * 1000,
    ensures
        run(s, deltas).1 == 1,
        run(s, deltas).0.alarm_fired,
{
    lemma_alarm_at_most_once(s, deltas);
    let d = deltas.drop_last();
    lemma_alarm_at_most_once(s, d);
    lemma_total_nonneg(d);
}

impl Session {
    /// Records which process holds the focus, by its executable name, when a
    /// process is tracked.
    pub fn observe_focus(&mut self, focused_exe: Option<&str>)
        ensures
            *final(self) == match old(self).target_exe_name {
                Some(t) => (Session {
                    target_is_active: focus_matches(
                        t@,
                        match focused_exe {
                            Some(n) => Some(n@),
                            None => None,
                        },
                    ),
                    ..*old(self)
                }),
                None => *old(self),
            },
    {
        let active = match (&self.target_exe_name, focused_exe) {
            (Some(t), Some(n)) => {
                let l = lowercase(n);
                Some(l == *t)
            },
            (Some(_), None) => Some(false),
            (None, _) => None,
        };
        if let Some(a) = active {
            self.target_is_active = a;
        }
    }

    /// Lets `delta_ms` milliseconds pass on the focus timer.
    pub fn tick(&mut self, delta_ms: u64)
        ensures
            *final(self) == ticked(*old(self), delta_ms),
    {
        if self.target_is_active {
            self.elapsed_ms = self.elapsed_ms.saturating_add(delta_ms);
        }
    }

    /// Sets the alarm off if it is armed, has not gone off, and the timer has
    /// reached its threshold; says whether it went off now.
    pub fn check_alarm(&mut self) -> (fired: bool)
        ensures
            fired == alarm_due(*old(self)),
            *final(self) == checked(*old(self)),
    {
        if let Some(t) = self.alarm_threshold {
            if !self.alarm_fired && self.elapsed_ms / 1000 >= t {
                assert(self.elapsed_ms >= t * 1000) by (nonlinear_arith)
                    requires
                        self.elapsed_ms / 1000 >= t,
                ;
                self.alarm_fired = true;
                return true;
            }
            assert(self.alarm_fired || self.elapsed_ms < t * 1000) by (nonlinear_arith)
                requires
                    self.alarm_fired || self.elapsed_ms / 1000 < t,
            ;
        }
        false
    }

    /// Tracks the process whose executable has file name `exe_file_name`,
    /// matched without regard to case.
    pub fn set_target_process(&mut self, exe_file_name: &str)
        ensures
            final(self).target_exe_name matches Some(t) && t@ == lower_of(exe_file_name@),
            final(self).folders == old(self).folders,
            final(self).image_paths == old(self).image_paths,
            final(self).current_index == old(self).current_index,
            final(self).target_is_active == old(self).target_is_active,
            final(self).elapsed_ms == old(self).elapsed_ms,
            final(self).is_pinned == old(self).is_pinned,
            final(self).alarm_seconds == old(self).alarm_seconds,
            final(self).alarm_threshold == old(self).alarm_threshold,
            final(self).alarm_fired == old(self).alarm_fired,
            final(self).alarm_sound_path == old(self).alarm_sound_path,
    {
        self.target_exe_name = Some(lowercase(exe_file_name));
    }

    /// Flips whether the window stays above others.
    pub fn toggle_pin(&mut self)
        ensures
            *final(self) == (Session { is_pinned: !old(self).is_pinned, ..*old(self) }),
    {
        self.is_pinned = !self.is_pinned;
    }

    /// Opening the alarm settings offers the default threshold when none was
    /// chosen yet.
    pub fn open_alarm_config(&mut self)
        ensures
            *final(self) == (Session {
                alarm_seconds: Some(
                    match old(self).alarm_seconds {
                        Some(v) => v,
                        None => DEFAULT_ALARM_SECONDS,
                    },
                ),
                ..*old(self)
            }),
    {
        if self.alarm_seconds.is_none() {
            self.alarm_seconds = Some(DEFAULT_ALARM_SECONDS);
        }
    }

    /// Chooses a threshold, held to the range the settings offer.
    pub fn set_alarm_seconds(&mut self, seconds: u64)
        ensures
            *final(self) == (Session {
                alarm_seconds: Some(
                    if seconds < MIN_ALARM_SECONDS {
                        MIN_ALARM_SECONDS
                    } else if seconds > MAX_ALARM_SECONDS {
                        MAX_ALARM_SECONDS
                    } else {
                        seconds
                    },
                ),
                ..*old(self)
            }),
    {
        let v = if seconds < MIN_ALARM_SECONDS {
            MIN_ALARM_SECONDS
        } else if seconds > MAX_ALARM_SECONDS {
            MAX_ALARM_SECONDS
        } else {
            seconds
        };
        self.alarm_seconds = Some(v);
    }

    /// Arms the alarm with the chosen threshold (the default if none was chosen).
    pub fn arm_alarm(&mut self)
        ensures
            *final(self) == (Session {
                alarm_threshold: Some(
                    match old(self).alarm_seconds {
                        Some(v) => v,
                        None => DEFAULT_ALARM_SECONDS,
                    },
                ),
                alarm_fired: false,
                ..*old(self)
            }),
    {
        let secs = match self.alarm_seconds {
            Some(v) => v,
            None => DEFAULT_ALARM_SECONDS,
        };
        self.alarm_threshold = Some(secs);
        self.alarm_fired = false;
    }

    /// Chooses the sound file the alarm plays.
    pub fn set_alarm_sound(&mut self, path: String)
        ensures
            *final(self) == (Session { alarm_sound_path: Some(path), ..*old(self) }),
    {
        self.alarm_sound_path = Some(path);
    }

    /// The timer as whole minutes and the seconds past them.
    pub fn timer_clock(&self) -> (r: (u64, u64))
        ensures
            r.0 == self.elapsed_ms / 1000 / 60,
            r.1 == self.elapsed_ms / 1000 % 60,
    {
        let secs = self.elapsed_ms / 1000;
        (secs / 60, secs % 60)
    }
}

} // verus!
