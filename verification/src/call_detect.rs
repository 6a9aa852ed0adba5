//! Call detection: the cooldown bookkeeping that keeps the shell from
//! prompting twice for one call, the matching of configured call apps
//! against running processes, and the per-poll decisions of the background
//! monitor that prompts when a call starts and offers to stop the recording
//! when it ends.
//!
//! Time is kept as nanoseconds elapsed since the detector was made; the
//! decision functions take that reading as an argument.

use std::sync::{Arc, Mutex};
use std::time::Instant;
use vstd::prelude::*;
use crate::names::{
    display_name, display_name_for, has_window_detection, window_detectable, FAILED_WINDOW_COUNT,
};
use crate::text::{chars_eq, chars_of, contains_chars, contains_vec, lowercase, string_of, to_lowercase};

verus! {

#[verifier::external_type_specification]
#[verifier::external_body]
pub struct ExInstant(Instant);

#[verifier::external_type_specification]
#[verifier::external_body]
#[verifier::reject_recursive_types(T)]
pub struct ExMutex<T: ?Sized>(Mutex<T>);

/// Shared state for call detection, accessible from the shell's commands:
/// the app whose call prompt started the current recording, if any, so
/// that the detection loop can watch for the end of that call.
pub struct CallDetectState {
    /// The app that triggered the current recording.
    pub call_triggered_app: Arc<Mutex<Option<String>>>,
}

/// Calls `Instant::now`. Nothing is claimed of the instant it returns.
#[verifier::external_body]
fn instant_now() -> Instant {
    Instant::now()
}

/// Calls `Instant::elapsed` on `since` and hands back the `Duration` as
/// whole nanoseconds (`Duration::as_nanos`). The value depends on when the
/// call is made, so nothing is claimed of it.
#[verifier::external_body]
fn nanos_elapsed(since: &Instant) -> u128 {
    since.elapsed().as_nanos()
}

/// The cooldown settings are too large for the cooldown arithmetic.
#[derive(Clone, Copy, Debug, PartialEq, Eq)]
pub struct CooldownOverflow;

/// Settings of call detection.
pub struct CallDetectionConfig {
    /// Whether the background detection runs at all.
    pub enabled: bool,
    /// Seconds between two polls (0 is read as 1).
    pub poll_interval_secs: u64,
    /// Minutes during which an app is not prompted for again.
    pub cooldown_minutes: u64,
    /// Process names of the call apps to look for.
    pub apps: Vec<String>,
}

/// Payload handed to the frontend when a call is detected.
pub struct CallDetectedPayload {
    /// Friendly name of the app.
    pub app_name: String,
    /// The configured process name that matched.
    pub process_name: String,
}

/// The characters of each string.
pub open spec fn string_views(v: Seq<String>) -> Seq<Seq<char>> {
    v.map_values(|s: String| s@)
}

/// A notification record as the contracts see it: the process name and
/// when it was notified.
pub open spec fn entry_views(v: Seq<(String, u128)>) -> Seq<(Seq<char>, u128)> {
    v.map_values(|e: (String, u128)| (e.0@, e.1))
}

/// How long ago `at` was, seen at `now`; never negative, as
/// `Instant::elapsed` saturates at zero.
pub open spec fn age(now: u128, at: u128) -> int {
    if now >= at {
        now - at
    } else {
        0
    }
}

/// The cooldown, in nanoseconds.
pub open spec fn cooldown_span(minutes: u64) -> int {
    minutes * 60 * 1_000_000_000
}

/// Whether `name` was notified less than a cooldown before `now`.
pub open spec fn cooling_down(
    entries: Seq<(Seq<char>, u128)>,
    name: Seq<char>,
    now: u128,
    minutes: u64,
) -> bool {
    exists|i: int|
        0 <= i < entries.len() && (#[trigger] entries[i]).0 == name && age(now, entries[i].1)
            < cooldown_span(minutes)
}

/// The records of other names than `name`.
pub open spec fn without_name(entries: Seq<(Seq<char>, u128)>, name: Seq<char>) -> Seq<
    (Seq<char>, u128),
> {
    entries.filter(other_name(name))
}

/// Holds of the records of other names than `name`.
pub open spec fn other_name(name: Seq<char>) -> spec_fn((Seq<char>, u128)) -> bool {
    |e: (Seq<char>, u128)| e.0 != name
}

/// Holds of the records younger than `span` at `now`.
pub open spec fn younger(now: u128, span: int) -> spec_fn((Seq<char>, u128)) -> bool {
    |e: (Seq<char>, u128)| age(now, e.1) < span
}

/// The records younger than `span` at `now`.
pub open spec fn younger_than(entries: Seq<(Seq<char>, u128)>, now: u128, span: int) -> Seq<
    (Seq<char>, u128),
> {
    entries.filter(younger(now, span))
}

/// The records after `name` is notified at `now`: its old record goes,
/// a new one is added, and every record older than two cooldowns is
/// pruned.
pub open spec fn after_notify(
    entries: Seq<(Seq<char>, u128)>,
    name: Seq<char>,
    now: u128,
    minutes: u64,
) -> Seq<(Seq<char>, u128)> {
    younger_than(without_name(entries, name).push((name, now)), now, 2 * cooldown_span(minutes))
}

/// Whether the lowercased app name and the lowercased process name
/// contain one another (`"zoom.us"` matches the process `zoom.us`,
/// `"Microsoft Teams"` matches `Microsoft Teams Helper`).
pub open spec fn names_overlap(app_lower: Seq<char>, process_lower: Seq<char>) -> bool {
    contains_chars(process_lower, app_lower) || contains_chars(app_lower, process_lower)
}

/// Whether a process of the app `app` is among `running`.
pub open spec fn app_running(app: Seq<char>, running: Seq<Seq<char>>) -> bool {
    exists|j: int|
        0 <= j < running.len() && names_overlap(lowercase(app), lowercase(#[trigger] running[j]))
}

/// The first configured app that is running.
pub open spec fn first_running_app(apps: Seq<Seq<char>>, running: Seq<Seq<char>>) -> Option<int>
    decreases apps.len(),
{
    if apps.len() == 0 {
        None
    } else {
        match first_running_app(apps.drop_last(), running) {
            Some(i) => Some(i),
            None => if app_running(apps.last(), running) {
                Some(apps.len() - 1)
            } else {
                None
            },
        }
    }
}

/// The call in progress, as (display name, process name): none while the
/// microphone is idle, else the first configured app that is running.
pub open spec fn detected_call(apps: Seq<Seq<char>>, running: Seq<Seq<char>>, mic_in_use: bool) -> Option<
    (Seq<char>, Seq<char>),
> {
    if !mic_in_use {
        None
    } else {
        match first_running_app(apps, running) {
            Some(i) => Some((display_name(apps[i]), apps[i])),
            None => None,
        }
    }
}

/// Once a prefix of `apps` has a running app, the whole list has the same
/// first running app.
proof fn lemma_first_running_extends(apps: Seq<Seq<char>>, running: Seq<Seq<char>>, k: int)
    requires
        0 <= k <= apps.len(),
        first_running_app(apps.take(k), running) is Some,
    ensures
        first_running_app(apps, running) == first_running_app(apps.take(k), running),
    decreases apps.len() - k,
{
    if k < apps.len() {
        assert(apps.take(k + 1).drop_last() =~= apps.take(k));
        lemma_first_running_extends(apps, running, k + 1);
    } else {
        assert(apps.take(k) =~= apps);
    }
}

/// What a poll in start-detection mode does with a detected call: the
/// records afterwards and the prompt shown, if any. An app still in its
/// cooldown is not prompted for; otherwise it is prompted for and notified.
pub open spec fn prompt_outcome(
    entries: Seq<(Seq<char>, u128)>,
    detected: Option<(Seq<char>, Seq<char>)>,
    now: u128,
    minutes: u64,
) -> (Seq<(Seq<char>, u128)>, Option<(Seq<char>, Seq<char>)>) {
    match detected {
        None => (entries, None),
        Some(call) => if cooling_down(entries, call.1, now, minutes) {
            (entries, None)
        } else {
            (after_notify(entries, call.1, now, minutes), Some(call))
        },
    }
}

/// Call detection state: the settings, the clock the records are kept
/// against, and the last notification time of each app.
pub struct CallDetector {
    config: CallDetectionConfig,
    clock: Instant,
    last_notified: Vec<(String, u128)>,
}

/// `now - at`, or zero when `at` is later.
fn age_of(now: u128, at: u128) -> (r: u128)
    ensures
        r == age(now, at),
{
    if now >= at {
        now - at
    } else {
        0
    }
}

/// The records of `entries` whose name is not `name`, in order.
fn records_without(entries: &Vec<(String, u128)>, name: &Vec<char>) -> (r: Vec<(String, u128)>)
    ensures
        entry_views(r@) == without_name(entry_views(entries@), name@),
{
    let ghost all = entry_views(entries@);
    let ghost pred = other_name(name@);
    let mut r: Vec<(String, u128)> = Vec::new();
    let mut i: usize = 0;
    while i < entries.len()
        invariant
            i <= entries.len(),
            all == entry_views(entries@),
            pred == other_name(name@),
            entry_views(r@) == all.take(i as int).filter(pred),
        decreases entries.len() - i,
    {
        reveal(Seq::filter);
        assert(all.take(i + 1).drop_last() =~= all.take(i as int));
        assert(all.take(i + 1).last() == all[i as int]);
        let en = chars_of(entries[i].0.as_str());
        if !chars_eq(&en, name) {
            let ghost before = r@;
            r.push((entries[i].0.clone(), entries[i].1));
            assert(entry_views(r@) =~= entry_views(before).push(all[i as int]));
        }
        i = i + 1;
    }
    assert(all.take(entries.len() as int) =~= all);
    r
}

/// The records of `entries` younger than `span` at `now`, in order.
fn records_younger(entries: Vec<(String, u128)>, now: u128, span: u128) -> (r: Vec<(String, u128)>)
    ensures
        entry_views(r@) == younger_than(entry_views(entries@), now, span as int),
{
    let ghost all = entry_views(entries@);
    let ghost pred = younger(now, span as int);
    let mut r: Vec<(String, u128)> = Vec::new();
    let mut i: usize = 0;
    while i < entries.len()
        invariant
            i <= entries.len(),
            all == entry_views(entries@),
            pred == younger(now, span as int),
            entry_views(r@) == all.take(i as int).filter(pred),
        decreases entries.len() - i,
    {
        reveal(Seq::filter);
        assert(all.take(i + 1).drop_last() =~= all.take(i as int));
        assert(all.take(i + 1).last() == all[i as int]);
        if age_of(now, entries[i].1) < span {
            let ghost before = r@;
            r.push((entries[i].0.clone(), entries[i].1));
            assert(entry_views(r@) =~= entry_views(before).push(all[i as int]));
        }
        i = i + 1;
    }
    assert(all.take(entries.len() as int) =~= all);
    r
}

/// Whether some process name in `lowered` and the app name `a` contain
/// one another.
fn any_overlap(lowered: &Vec<Vec<char>>, a: &Vec<char>) -> (r: bool)
    ensures
        r == exists|m: int| 0 <= m < lowered.len() && names_overlap(a@, #[trigger] lowered[m]@),
{
    let mut k: usize = 0;
    while k < lowered.len()
        invariant
            k <= lowered.len(),
            forall|m: int| 0 <= m < k ==> !names_overlap(a@, #[trigger] lowered[m]@),
        decreases lowered.len() - k,
    {
        if contains_vec(&lowered[k], a) || contains_vec(a, &lowered[k]) {
            return true;
        }
        k = k + 1;
    }
    false
}

impl CallDetector {
    /// The settings the detector was made with.
    pub closed spec fn settings(&self) -> CallDetectionConfig {
        self.config
    }

    /// The notification records, oldest first.
    pub closed spec fn notified(&self) -> Seq<(Seq<char>, u128)> {
        entry_views(self.last_notified@)
    }

    /// The configured app names.
    pub open spec fn app_names(&self) -> Seq<Seq<char>> {
        string_views(self.settings().apps@)
    }

    /// A detector with the given settings and no notification records.
    pub fn new(config: CallDetectionConfig) -> (d: Self)
        ensures
            d.settings() == config,
            d.notified() == Seq::<(Seq<char>, u128)>::empty(),
    {
        let d = CallDetector { config, clock: instant_now(), last_notified: Vec::new() };
        assert(d.notified() =~= Seq::<(Seq<char>, u128)>::empty());
        d
    }

    /// The settings the detector was made with.
    pub fn config(&self) -> (c: &CallDetectionConfig)
        ensures
            *c == self.settings(),
    {
        &self.config
    }

    /// Nanoseconds elapsed on the detector's clock; the time argument of
    /// the `_at` functions.
    pub fn clock_nanos(&self) -> u128 {
        nanos_elapsed(&self.clock)
    }

    /// Seconds between two polls of the background loop, or `None` when
    /// detection is disabled.
    pub fn poll_interval_secs(&self) -> (r: Option<u64>)
        ensures
            r == (if self.settings().enabled {
                Some(if self.settings().poll_interval_secs >= 1 {
                    self.settings().poll_interval_secs
                } else {
                    1u64
                })
            } else {
                None
            }),
    {
        if !self.config.enabled {
            None
        } else if self.config.poll_interval_secs >= 1 {
            Some(self.config.poll_interval_secs)
        } else {
            Some(1)
        }
    }

    /// Whether `process_name` was notified less than a cooldown before `now`.
    pub fn in_cooldown_at(&self, process_name: &str, now: u128) -> (r: bool)
        requires
            self.settings().cooldown_minutes * 60 <= u64::MAX,
        ensures
            r == cooling_down(self.notified(), process_name@, now, self.settings().cooldown_minutes),
    {
        let span: u128 = (self.config.cooldown_minutes * 60) as u128 * 1_000_000_000;
        let name = chars_of(process_name);
        let ghost entries = self.notified();
        let mut i: usize = 0;
        while i < self.last_notified.len()
            invariant
                i <= self.last_notified.len(),
                entries == self.notified(),
                entries.len() == self.last_notified.len(),
                span == cooldown_span(self.settings().cooldown_minutes),
                name@ == process_name@,
                forall|j: int|
                    0 <= j < i ==> !((#[trigger] entries[j]).0 == name@ && age(now, entries[j].1)
                        < span),
            decreases self.last_notified.len() - i,
        {
            let en = chars_of(self.last_notified[i].0.as_str());
            assert(entries[i as int] == (self.last_notified@[i as int].0@, self.last_notified@[i as int].1));
            if chars_eq(&en, &name) && age_of(now, self.last_notified[i].1) < span {
                return true;
            }
            i = i + 1;
        }
        false
    }

    /// Whether `process_name` was notified less than a cooldown ago.
    pub fn in_cooldown(&self, process_name: &str) -> (r: bool)
        requires
            self.settings().cooldown_minutes * 60 <= u64::MAX,
        ensures
            exists|now: u128|
                r == cooling_down(self.notified(), process_name@, now, self.settings().cooldown_minutes),
    {
        let now = nanos_elapsed(&self.clock);
        self.in_cooldown_at(process_name, now)
    }

    /// Records that `process_name` was notified at `now`, replacing its
    /// earlier record, and prunes records older than two cooldowns.
    pub fn set_cooldown_at(&mut self, process_name: &str, now: u128)
        requires
            old(self).settings().cooldown_minutes * 60 * 2 <= u64::MAX,
        ensures
            final(self).settings() == old(self).settings(),
            final(self).notified() == after_notify(
                old(self).notified(),
                process_name@,
                now,
                old(self).settings().cooldown_minutes,
            ),
    {
        let cutoff: u128 = (self.config.cooldown_minutes * 60 * 2) as u128 * 1_000_000_000;
        let name = chars_of(process_name);
        let mut kept = records_without(&self.last_notified, &name);
        let ghost before = kept@;
        kept.push((string_of(process_name), now));
        assert(entry_views(kept@) =~= entry_views(before).push((process_name@, now)));
        self.last_notified = records_younger(kept, now, cutoff);
    }

    /// Records that `process_name` was notified just now (see `set_cooldown_at`).
    pub fn set_cooldown(&mut self, process_name: &str)
        requires
            old(self).settings().cooldown_minutes * 60 * 2 <= u64::MAX,
        ensures
            final(self).settings() == old(self).settings(),
            exists|now: u128|
                final(self).notified() == after_notify(
                    old(self).notified(),
                    process_name@,
                    now,
                    old(self).settings().cooldown_minutes,
                ),
    {
        let now = nanos_elapsed(&self.clock);
        self.set_cooldown_at(process_name, now);
    }

    /// Forgets the record of `process_name`, so that a new call of that app
    /// is prompted for at once.
    pub fn clear_cooldown(&mut self, process_name: &str)
        ensures
            final(self).settings() == old(self).settings(),
            final(self).notified() == without_name(old(self).notified(), process_name@),
    {
        let name = chars_of(process_name);
        self.last_notified = records_without(&self.last_notified, &name);
    }

    /// Forgets every record.
    pub fn clear_all_cooldowns(&mut self)
        ensures
            final(self).settings() == old(self).settings(),
            final(self).notified() == Seq::<(Seq<char>, u128)>::empty(),
    {
        self.last_notified.clear();
        assert(self.notified() =~= Seq::<(Seq<char>, u128)>::empty());
    }

    /// The call in progress: when the microphone is in use, the first
    /// configured app with a running process whose lowercased name contains
    /// the lowercased app name or is contained in it, as (display name,
    /// configured name).
    pub fn detect_active_call(&self, mic_in_use: bool, running: &Vec<String>) -> (r: Option<
        (String, String),
    >)
        ensures
            match r {
                Some(call) => detected_call(self.app_names(), string_views(running@), mic_in_use)
                    == Some((call.0@, call.1@)),
                None => detected_call(self.app_names(), string_views(running@), mic_in_use)
                    is None,
            },
    {
        if !mic_in_use {
            return None;
        }
        let ghost runs = string_views(running@);
        let mut lowered: Vec<Vec<char>> = Vec::new();
        let mut j: usize = 0;
        while j < running.len()
            invariant
                j <= running.len(),
                runs == string_views(running@),
                lowered.len() == j,
                forall|m: int| 0 <= m < j ==> (#[trigger] lowered[m])@ == lowercase(runs[m]),
            decreases running.len() - j,
        {
            let l = to_lowercase(running[j].as_str());
            lowered.push(chars_of(l.as_str()));
            j = j + 1;
        }
        let ghost apps = self.app_names();
        let mut i: usize = 0;
        while i < self.config.apps.len()
            invariant
                i <= self.config.apps.len(),
                apps == self.app_names(),
                apps.len() == self.config.apps.len(),
                runs == string_views(running@),
                lowered.len() == running.len(),
                forall|m: int| 0 <= m < running.len() ==> (#[trigger] lowered[m])@ == lowercase(runs[m]),
                first_running_app(apps.take(i as int), runs) is None,
                mic_in_use,
            decreases self.config.apps.len() - i,
        {
            let app = &self.config.apps[i];
            assert(apps[i as int] == app@);
            let app_lower = to_lowercase(app.as_str());
            let a = chars_of(app_lower.as_str());
            let found = any_overlap(&lowered, &a);
            assert(found == app_running(apps[i as int], runs)) by {
                if found {
                    let m = choose|m: int| 0 <= m < lowered.len() && names_overlap(a@, #[trigger] lowered[m]@);
                    assert(names_overlap(lowercase(apps[i as int]), lowercase(runs[m])));
                }
                if app_running(apps[i as int], runs) {
                    let m = choose|m: int| 0 <= m < runs.len() && names_overlap(lowercase(apps[i as int]), lowercase(#[trigger] runs[m]));
                    assert(names_overlap(a@, lowered[m]@));
                }
            }
            assert(apps.take(i + 1).drop_last() =~= apps.take(i as int));
            assert(apps.take(i + 1).last() == apps[i as int]);
            if found {
                assert(app_running(apps[i as int], runs));
                assert(first_running_app(apps.take(i + 1), runs) == Some(i as int));
                proof {
                    lemma_first_running_extends(apps, runs, i + 1);
                }
                let display = display_name_for(app.as_str());
                let name = app.clone();
                return Some((display, name));
            }
            assert(!app_running(apps[i as int], runs));
            i = i + 1;
        }
        assert(apps.take(apps.len() as int) =~= apps);
        None
    }

    /// Start-detection with the readings of one poll: when a call app is
    /// detected and not in its cooldown, notes it and returns the prompt to
    /// show; an app still in its cooldown gets no prompt.
    pub fn prompt_for_call(&mut self, mic_in_use: bool, running: &Vec<String>, now: u128) -> (r:
        Option<CallDetectedPayload>)
        requires
            detected_call(old(self).app_names(), string_views(running@), mic_in_use) is Some
                ==> old(self).settings().cooldown_minutes * 60 <= u64::MAX,
            detected_call(old(self).app_names(), string_views(running@), mic_in_use) matches Some(
                call,
            ) && !cooling_down(
                old(self).notified(),
                call.1,
                now,
                old(self).settings().cooldown_minutes,
            ) ==> old(self).settings().cooldown_minutes * 60 * 2 <= u64::MAX,
        ensures
            final(self).settings() == old(self).settings(),
            final(self).notified() == prompt_outcome(
                old(self).notified(),
                detected_call(old(self).app_names(), string_views(running@), mic_in_use),
                now,
                old(self).settings().cooldown_minutes,
            ).0,
            match r {
                Some(p) => prompt_outcome(
                    old(self).notified(),
                    detected_call(old(self).app_names(), string_views(running@), mic_in_use),
                    now,
                    old(self).settings().cooldown_minutes,
                ).1 == Some((p.app_name@, p.process_name@)),
                None => prompt_outcome(
                    old(self).notified(),
                    detected_call(old(self).app_names(), string_views(running@), mic_in_use),
                    now,
                    old(self).settings().cooldown_minutes,
                ).1 is None,
            },
    {
        match self.detect_active_call(mic_in_use, running) {
            None => None,
            Some((display, process)) => {
                if self.in_cooldown_at(process.as_str(), now) {
                    None
                } else {
                    self.set_cooldown_at(process.as_str(), now);
                    Some(CallDetectedPayload { app_name: display, process_name: process })
                }
            },
        }
    }

    /// `prompt_for_call`, or `Err` where noting the detected app would
    /// overflow the cooldown arithmetic (a cooldown of more than `u64::MAX`
    /// seconds, or twice that for the pruning cutoff); the records are then
    /// left as they were.
    pub fn prompt_for_call_checked(&mut self, mic_in_use: bool, running: &Vec<String>, now: u128) -> (r:
        Result<Option<CallDetectedPayload>, CooldownOverflow>)
        ensures
            final(self).settings() == old(self).settings(),
            r is Err <==> (detected_call(old(self).app_names(), string_views(running@), mic_in_use)
                matches Some(call) && (old(self).settings().cooldown_minutes * 60 > u64::MAX || (
            !cooling_down(old(self).notified(), call.1, now, old(self).settings().cooldown_minutes)
                && old(self).settings().cooldown_minutes * 60 * 2 > u64::MAX))),
            r is Err ==> final(self).notified() == old(self).notified(),
            r is Ok ==> final(self).notified() == prompt_outcome(
                old(self).notified(),
                detected_call(old(self).app_names(), string_views(running@), mic_in_use),
                now,
                old(self).settings().cooldown_minutes,
            ).0,
            r matches Ok(Some(p)) ==> prompt_outcome(
                old(self).notified(),
                detected_call(old(self).app_names(), string_views(running@), mic_in_use),
                now,
                old(self).settings().cooldown_minutes,
            ).1 == Some((p.app_name@, p.process_name@)),
            r matches Ok(None) ==> prompt_outcome(
                old(self).notified(),
                detected_call(old(self).app_names(), string_views(running@), mic_in_use),
                now,
                old(self).settings().cooldown_minutes,
            ).1 is None,
    {
        let minutes = self.config.cooldown_minutes;
        if minutes <= 0xffff_ffff_ffff_ffff / 120 {
            return Ok(self.prompt_for_call(mic_in_use, running, now));
        }
        match self.detect_active_call(mic_in_use, running) {
            None => Ok(self.prompt_for_call(mic_in_use, running, now)),
            Some((_display, process)) => {
                if minutes > 0xffff_ffff_ffff_ffff / 60 {
                    Err(CooldownOverflow)
                } else if self.in_cooldown_at(process.as_str(), now) {
                    Ok(self.prompt_for_call(mic_in_use, running, now))
                } else {
                    Err(CooldownOverflow)
                }
            },
        }
    }

    /// End-detection for a recording started from a call prompt: reads one
    /// signal of the meeting of `app_name`. When the meeting is seen to have
    /// ended and no stop countdown was shown yet, marks the countdown shown,
    /// forgets the app's cooldown so that its next call is detected, and
    /// returns `true`: the caller shows the countdown.
    pub fn watch_meeting(&mut self, monitor: &mut CallMonitor, app_name: &str, signal: MeetingSignal) -> (show_countdown: bool)
        requires
            signal == MeetingSignal::Microphone(false) ==> old(monitor).silence_miss_count < u32::MAX,
        ensures
            (*final(monitor), show_countdown) == watch_step(*old(monitor), signal),
            final(self).settings() == old(self).settings(),
            final(self).notified() == (if show_countdown {
                without_name(old(self).notified(), app_name@)
            } else {
                old(self).notified()
            }),
    {
        monitor.was_recording = true;
        let meeting_active = match signal {
            MeetingSignal::WindowCount(current) => {
                match monitor.initial_window_count {
                    Some(initial) => current >= initial,
                    None => {
                        if current != FAILED_WINDOW_COUNT {
                            monitor.initial_window_count = Some(current);
                        }
                        true
                    },
                }
            },
            MeetingSignal::Microphone(true) => {
                monitor.silence_miss_count = 0;
                true
            },
            MeetingSignal::Microphone(false) => {
                monitor.silence_miss_count = monitor.silence_miss_count + 1;
                monitor.silence_miss_count < monitor.grace_checks
            },
        };
        if !meeting_active && !monitor.countdown_shown {
            monitor.countdown_shown = true;
            self.clear_cooldown(app_name);
            monitor.silence_miss_count = 0;
            true
        } else {
            false
        }
    }

    /// Start-detection bookkeeping at the start of a poll while not
    /// recording. Right after a recording stopped, forgets every cooldown so
    /// that back-to-back meetings are detected at once, and returns whether
    /// the caller must clear the app that triggered that recording (it does
    /// when one is set). The monitor returns to its idle state.
    pub fn begin_detection(&mut self, monitor: &mut CallMonitor, triggered_app_present: bool) -> (clear_triggered_app: bool)
        ensures
            clear_triggered_app == (old(monitor).was_recording && triggered_app_present),
            *final(monitor) == CallMonitor::idle(old(monitor).grace_checks),
            final(self).settings() == old(self).settings(),
            final(self).notified() == (if old(monitor).was_recording {
                Seq::<(Seq<char>, u128)>::empty()
            } else {
                old(self).notified()
            }),
    {
        let was_recording = monitor.was_recording;
        if was_recording {
            self.clear_all_cooldowns();
        }
        monitor.silence_miss_count = 0;
        monitor.was_recording = false;
        monitor.countdown_shown = false;
        monitor.initial_window_count = None;
        was_recording && triggered_app_present
    }
}

/// Seconds of microphone silence after which a meeting without window
/// detection counts as ended.
pub const MIC_SILENCE_GRACE_SECS: u64 = 30;

/// State of the background loop between polls.
#[derive(Clone, Copy, Debug, PartialEq, Eq)]
pub struct CallMonitor {
    /// Consecutive polls with a silent microphone.
    pub silence_miss_count: u32,
    /// Whether the previous poll saw a recording.
    pub was_recording: bool,
    /// Whether the stop countdown was shown for the current recording.
    pub countdown_shown: bool,
    /// The meeting app's window count when monitoring began.
    pub initial_window_count: Option<u32>,
    /// Silent polls that make up the grace period.
    pub grace_checks: u32,
}

/// Silent polls in the grace period for a poll interval.
pub open spec fn grace_for(poll_interval_secs: u64) -> u32 {
    (MIC_SILENCE_GRACE_SECS / (if poll_interval_secs >= 1 {
        poll_interval_secs
    } else {
        1u64
    })) as u32
}

/// What the loop does in one poll.
#[derive(Clone, Copy, Debug, PartialEq, Eq)]
pub enum PollPlan {
    /// A previous recording is being processed: do nothing.
    Skip,
    /// The recording was started from a prompt for an app whose windows
    /// can be counted: count them and call `watch_meeting`.
    WatchWindows,
    /// The recording was started from a prompt for another app: check the
    /// microphone and call `watch_meeting`.
    WatchMicrophone,
    /// The recording was started by hand, or the user chose to continue:
    /// call `CallMonitor::keep_recording`.
    KeepRecording,
    /// Not recording: call `begin_detection`, then check for a call and
    /// call `prompt_for_call`.
    DetectCall,
}

/// One reading of whether a monitored meeting goes on.
#[derive(Clone, Copy, Debug, PartialEq, Eq)]
pub enum MeetingSignal {
    /// The meeting app's current window count.
    WindowCount(u32),
    /// Whether the microphone is in use.
    Microphone(bool),
}

/// The plan of a poll, from whether a recording is being processed,
/// whether one is running, and the app that triggered it.
pub open spec fn poll_plan(processing: bool, is_recording: bool, triggered_app: Option<Seq<char>>) -> PollPlan {
    if processing {
        PollPlan::Skip
    } else if is_recording {
        match triggered_app {
            Some(app) => if window_detectable(app) {
                PollPlan::WatchWindows
            } else {
                PollPlan::WatchMicrophone
            },
            None => PollPlan::KeepRecording,
        }
    } else {
        PollPlan::DetectCall
    }
}

/// The monitor after one meeting signal, and whether the meeting still
/// goes on: a window count below the first real count seen means it ended
/// (a failed count is neither a baseline nor a drop); a
/// silent microphone means it ended once the silent polls reach the grace
/// period, and a live one restarts the count.
pub open spec fn after_signal(m: CallMonitor, signal: MeetingSignal) -> (CallMonitor, bool) {
    match signal {
        MeetingSignal::WindowCount(current) => {
            let initial = match m.initial_window_count {
                Some(i) => Some(i),
                None => if current == FAILED_WINDOW_COUNT {
                    None
                } else {
                    Some(current)
                },
            };
            (
                CallMonitor {
                    silence_miss_count: m.silence_miss_count,
                    was_recording: true,
                    countdown_shown: m.countdown_shown,
                    initial_window_count: initial,
                    grace_checks: m.grace_checks,
                },
                match initial {
                    Some(i) => current >= i,
                    None => true,
                },
            )
        },
        MeetingSignal::Microphone(true) => (
            CallMonitor {
                silence_miss_count: 0,
                was_recording: true,
                countdown_shown: m.countdown_shown,
                initial_window_count: m.initial_window_count,
                grace_checks: m.grace_checks,
            },
            true,
        ),
        MeetingSignal::Microphone(false) => (
            CallMonitor {
                silence_miss_count: (m.silence_miss_count + 1) as u32,
                was_recording: true,
                countdown_shown: m.countdown_shown,
                initial_window_count: m.initial_window_count,
                grace_checks: m.grace_checks,
            },
            m.silence_miss_count + 1 < m.grace_checks,
        ),
    }
}

/// The monitor after one meeting signal, and whether to show the stop
/// countdown: once, when the meeting is first seen to have ended.
pub open spec fn watch_step(m: CallMonitor, signal: MeetingSignal) -> (CallMonitor, bool) {
    let (m1, active) = after_signal(m, signal);
    if !active && !m1.countdown_shown {
        (
            CallMonitor {
                silence_miss_count: 0,
                was_recording: m1.was_recording,
                countdown_shown: true,
                initial_window_count: m1.initial_window_count,
                grace_checks: m1.grace_checks,
            },
            true,
        )
    } else {
        (m1, false)
    }
}

/// What a poll does, given whether a previous recording is being
/// processed, whether a recording runs, and the app that triggered it.
pub fn plan_poll(processing: bool, is_recording: bool, triggered_app: Option<&str>) -> (r: PollPlan)
    ensures
        r == poll_plan(
            processing,
            is_recording,
            match triggered_app {
                Some(a) => Some(a@),
                None => None,
            },
        ),
{
    if processing {
        PollPlan::Skip
    } else if is_recording {
        match triggered_app {
            Some(app) => if has_window_detection(app) {
                PollPlan::WatchWindows
            } else {
                PollPlan::WatchMicrophone
            },
            None => PollPlan::KeepRecording,
        }
    } else {
        PollPlan::DetectCall
    }
}

impl CallMonitor {
    /// The monitor with nothing observed yet.
    pub open spec fn idle(grace_checks: u32) -> CallMonitor {
        CallMonitor {
            silence_miss_count: 0,
            was_recording: false,
            countdown_shown: false,
            initial_window_count: None,
            grace_checks,
        }
    }

    /// The monitor at the start of the loop, for a poll interval.
    pub fn new(poll_interval_secs: u64) -> (m: Self)
        ensures
            m == CallMonitor::idle(grace_for(poll_interval_secs)),
    {
        let interval = if poll_interval_secs >= 1 {
            poll_interval_secs
        } else {
            1
        };
        let grace = MIC_SILENCE_GRACE_SECS / interval;
        CallMonitor {
            silence_miss_count: 0,
            was_recording: false,
            countdown_shown: false,
            initial_window_count: None,
            grace_checks: grace as u32,
        }
    }

    /// A poll during a recording that no prompt started, or after the user
    /// chose to continue: nothing is monitored, and a later monitored
    /// meeting starts afresh.
    pub fn keep_recording(&mut self)
        ensures
            *final(self) == (CallMonitor {
                silence_miss_count: old(self).silence_miss_count,
                was_recording: true,
                countdown_shown: false,
                initial_window_count: None,
                grace_checks: old(self).grace_checks,
            }),
    {
        self.was_recording = true;
        self.countdown_shown = false;
        self.initial_window_count = None;
    }
}

/// Whether no two records share a name.
pub open spec fn one_record_per_name(entries: Seq<(Seq<char>, u128)>) -> bool {
    forall|i: int, j: int|
        0 <= i < j < entries.len() ==> (#[trigger] entries[i]).0 != (#[trigger] entries[j]).0
}

/// Filtering keeps only records that were there, and keeps one record per
/// name.
proof fn lemma_filter_keeps(entries: Seq<(Seq<char>, u128)>, pred: spec_fn((Seq<char>, u128)) -> bool)
    ensures
        forall|i: int|
            0 <= i < entries.filter(pred).len() ==> entries.contains(
                #[trigger] entries.filter(pred)[i],
            ) && pred(entries.filter(pred)[i]),
        one_record_per_name(entries) ==> one_record_per_name(entries.filter(pred)),
    decreases entries.len(),
{
    reveal(Seq::filter);
    if entries.len() > 0 {
        let init = entries.drop_last();
        lemma_filter_keeps(init, pred);
        let f = entries.filter(pred);
        let g = init.filter(pred);
        assert forall|i: int| 0 <= i < f.len() implies entries.contains(#[trigger] f[i]) && pred(
            f[i],
        ) by {
            if i < g.len() {
                assert(f[i] == g[i]);
                let k = choose|k: int| 0 <= k < init.len() && init[k] == g[i];
                assert(entries[k] == init[k]);
            } else {
                assert(f[i] == entries.last());
                assert(entries[entries.len() - 1] == entries.last());
            }
        }
        if one_record_per_name(entries) {
            assert(one_record_per_name(init)) by {
                assert forall|i: int, j: int| 0 <= i < j < init.len() implies (
                #[trigger] init[i]).0 != (#[trigger] init[j]).0 by {
                    assert(init[i] == entries[i] && init[j] == entries[j]);
                }
            }
            assert forall|i: int, j: int| 0 <= i < j < f.len() implies (#[trigger] f[i]).0 != (
            #[trigger] f[j]).0 by {
                if j < g.len() {
                    assert(f[i] == g[i] && f[j] == g[j]);
                } else {
                    assert(f[i] == g[i]);
                    assert(f[j] == entries.last());
                    let k = choose|k: int| 0 <= k < init.len() && init[k] == g[i];
                    assert(entries[k] == init[k]);
                    assert((entries[k]).0 != (entries[entries.len() - 1]).0);
                }
            }
        }
    }
}

/// A cleared app is not in its cooldown, whatever the time.
pub proof fn law_cleared_app_not_cooling(
    entries: Seq<(Seq<char>, u128)>,
    name: Seq<char>,
    now: u128,
    minutes: u64,
)
    ensures
        !cooling_down(without_name(entries, name), name, now, minutes),
{
    lemma_filter_keeps(entries, other_name(name));
}

/// After all records are forgotten, no app is in its cooldown.
pub proof fn law_cleared_all_not_cooling(name: Seq<char>, now: u128, minutes: u64)
    ensures
        !cooling_down(Seq::<(Seq<char>, u128)>::empty(), name, now, minutes),
{
}

/// An app notified at `t0` is in its cooldown at every `t1` from `t0` until
/// a cooldown has passed.
pub proof fn law_notified_app_cooling(
    entries: Seq<(Seq<char>, u128)>,
    name: Seq<char>,
    t0: u128,
    t1: u128,
    minutes: u64,
)
    requires
        t0 <= t1 < t0 + cooldown_span(minutes),
    ensures
        cooling_down(after_notify(entries, name, t0, minutes), name, t1, minutes),
{
    let pushed = without_name(entries, name).push((name, t0));
    let pred = younger(t0, 2 * cooldown_span(minutes));
    let last = pushed.len() - 1;
    assert(pushed[last] == (name, t0));
    assert(pred(pushed[last]));
    pushed.lemma_filter_contains(pred, last);
    let f = pushed.filter(pred);
    let k = choose|k: int| 0 <= k < f.len() && f[k] == pushed[last];
    assert(f[k].0 == name && age(t1, f[k].1) < cooldown_span(minutes));
}

/// Every operation on the records keeps at most one record per app.
pub proof fn law_one_record_per_name(
    entries: Seq<(Seq<char>, u128)>,
    name: Seq<char>,
    now: u128,
    minutes: u64,
)
    requires
        one_record_per_name(entries),
    ensures
        one_record_per_name(without_name(entries, name)),
        one_record_per_name(after_notify(entries, name, now, minutes)),
        one_record_per_name(Seq::<(Seq<char>, u128)>::empty()),
{
    lemma_filter_keeps(entries, other_name(name));
    let w = without_name(entries, name);
    assert(forall|i: int| 0 <= i < w.len() ==> (#[trigger] w[i]).0 != name);
    let pushed = w.push((name, now));
    assert(one_record_per_name(pushed)) by {
        assert forall|i: int, j: int| 0 <= i < j < pushed.len() implies (#[trigger] pushed[i]).0
            != (#[trigger] pushed[j]).0 by {
            assert(pushed[i] == w[i]);
            if j == w.len() {
                assert(w[i].0 != name);
            } else {
                assert(pushed[j] == w[j]);
            }
        }
    }
    lemma_filter_keeps(pushed, younger(now, 2 * cooldown_span(minutes)));
}

/// Once prompted for, a call app is not prompted for again within its
/// cooldown, however often it is detected.
pub proof fn law_no_second_prompt(
    entries: Seq<(Seq<char>, u128)>,
    call: (Seq<char>, Seq<char>),
    t0: u128,
    t1: u128,
    minutes: u64,
)
    requires
        prompt_outcome(entries, Some(call), t0, minutes).1 is Some,
        t0 <= t1 < t0 + cooldown_span(minutes),
    ensures
        prompt_outcome(prompt_outcome(entries, Some(call), t0, minutes).0, Some(call), t1, minutes).1
            is None,
{
    law_notified_app_cooling(entries, call.1, t0, t1, minutes);
}

/// Right after a recording stops every cooldown is gone, so a detected call
/// is prompted for at once.
pub proof fn law_prompt_after_recording(call: (Seq<char>, Seq<char>), now: u128, minutes: u64)
    ensures
        prompt_outcome(Seq::<(Seq<char>, u128)>::empty(), Some(call), now, minutes).1 == Some(call),
{
}

/// No prompt without a detected call, and none while the microphone is idle.
pub proof fn law_prompt_needs_call(
    entries: Seq<(Seq<char>, u128)>,
    apps: Seq<Seq<char>>,
    running: Seq<Seq<char>>,
    now: u128,
    minutes: u64,
)
    ensures
        prompt_outcome(entries, detected_call(apps, running, false), now, minutes).1 is None,
        prompt_outcome(entries, None, now, minutes) == (entries, None::<(Seq<char>, Seq<char>)>),
{
}

/// The stop countdown is shown at most once per monitored recording.
pub proof fn law_countdown_at_most_once(m: CallMonitor, signal: MeetingSignal)
    requires
        m.countdown_shown,
    ensures
        !watch_step(m, signal).1,
        watch_step(m, signal).0.countdown_shown,
{
}

/// A microphone in use means the meeting goes on.
pub proof fn law_live_microphone_keeps_meeting(m: CallMonitor)
    ensures
        !watch_step(m, MeetingSignal::Microphone(true)).1,
        watch_step(m, MeetingSignal::Microphone(true)).0.silence_miss_count == 0,
{
}

/// Window counts: the first real count seen is the baseline; the meeting
/// ends exactly when a count falls below it; a failed count never ends it.
pub proof fn law_window_count_baseline(m: CallMonitor, current: u32)
    requires
        !m.countdown_shown,
    ensures
        m.initial_window_count is None ==> !watch_step(m, MeetingSignal::WindowCount(current)).1
            && watch_step(m, MeetingSignal::WindowCount(current)).0.initial_window_count == (if current
            == FAILED_WINDOW_COUNT {
            None
        } else {
            Some(current)
        }),
        m.initial_window_count is Some ==> (watch_step(m, MeetingSignal::WindowCount(current)).1
            <==> current < m.initial_window_count->0),
        m.initial_window_count is Some ==> watch_step(
            m,
            MeetingSignal::WindowCount(current),
        ).0.initial_window_count == m.initial_window_count,
        !watch_step(m, MeetingSignal::WindowCount(FAILED_WINDOW_COUNT)).1,
{
}

/// The monitor after `k` consecutive polls with a silent microphone.
pub open spec fn after_silence(m: CallMonitor, k: nat) -> CallMonitor
    decreases k,
{
    if k == 0 {
        m
    } else {
        watch_step(after_silence(m, (k - 1) as nat), MeetingSignal::Microphone(false)).0
    }
}

/// Microphone fallback: from a fresh count, the first `grace_checks - 1`
/// silent polls show nothing, and the next one shows the stop countdown.
pub proof fn law_silence_grace_period(m: CallMonitor, k: nat)
    requires
        m.silence_miss_count == 0,
        !m.countdown_shown,
        k < m.grace_checks,
    ensures
        after_silence(m, k).silence_miss_count == k,
        !after_silence(m, k).countdown_shown,
        after_silence(m, k).grace_checks == m.grace_checks,
        watch_step(after_silence(m, k), MeetingSignal::Microphone(false)).1 == (k + 1
            == m.grace_checks),
    decreases k,
{
    if k > 0 {
        law_silence_grace_period(m, (k - 1) as nat);
    }
}

/// Whether `watch_meeting` shows the stop countdown at each poll of a run
/// of window counts.
pub open spec fn window_run(m: CallMonitor, counts: Seq<u32>) -> Seq<bool>
    decreases counts.len(),
{
    if counts.len() == 0 {
        seq![]
    } else {
        let (m1, show) = watch_step(m, MeetingSignal::WindowCount(counts[0]));
        seq![show] + window_run(m1, counts.drop_first())
    }
}

/// Whether `watch_meeting` shows the stop countdown at each poll of a run
/// of microphone readings (`true` for a microphone in use).
pub open spec fn mic_run(m: CallMonitor, live: Seq<bool>) -> Seq<bool>
    decreases live.len(),
{
    if live.len() == 0 {
        seq![]
    } else {
        let (m1, show) = watch_step(m, MeetingSignal::Microphone(live[0]));
        seq![show] + mic_run(m1, live.drop_first())
    }
}

/// The number of consecutive silent polls at each poll of a run, counting
/// on from `start`.
pub open spec fn silence_counts(start: int, live: Seq<bool>) -> Seq<int>
    decreases live.len(),
{
    if live.len() == 0 {
        seq![]
    } else {
        let n = if live[0] {
            0
        } else {
            start + 1
        };
        seq![n] + silence_counts(n, live.drop_first())
    }
}

/// A count per poll.
proof fn lemma_silence_counts_len(start: int, live: Seq<bool>)
    ensures
        silence_counts(start, live).len() == live.len(),
    decreases live.len(),
{
    if live.len() > 0 {
        let n = if live[0] {
            0
        } else {
            start + 1
        };
        lemma_silence_counts_len(n, live.drop_first());
    }
}

/// Once the countdown was shown, no later poll of a run shows it.
proof fn lemma_runs_after_countdown(m: CallMonitor, counts: Seq<u32>, live: Seq<bool>)
    requires
        m.countdown_shown,
    ensures
        window_run(m, counts).len() == counts.len(),
        forall|k: int| 0 <= k < counts.len() ==> !#[trigger] window_run(m, counts)[k],
        mic_run(m, live).len() == live.len(),
        forall|k: int| 0 <= k < live.len() ==> !#[trigger] mic_run(m, live)[k],
    decreases counts.len() + live.len(),
{
    if counts.len() > 0 {
        let (m1, show) = watch_step(m, MeetingSignal::WindowCount(counts[0]));
        lemma_runs_after_countdown(m1, counts.drop_first(), seq![]);
        assert forall|k: int| 0 <= k < counts.len() implies !#[trigger] window_run(m, counts)[k] by {
            if k > 0 {
                assert(window_run(m, counts)[k] == window_run(m1, counts.drop_first())[k - 1]);
            }
        }
    }
    if live.len() > 0 {
        let (m1, show) = watch_step(m, MeetingSignal::Microphone(live[0]));
        lemma_runs_after_countdown(m1, seq![], live.drop_first());
        assert forall|k: int| 0 <= k < live.len() implies !#[trigger] mic_run(m, live)[k] by {
            if k > 0 {
                assert(mic_run(m, live)[k] == mic_run(m1, live.drop_first())[k - 1]);
            }
        }
    }
}

/// With a baseline `c0` set and no countdown shown, a run of window counts
/// shows the countdown exactly at its first count below `c0`.
proof fn lemma_window_run_from_baseline(m: CallMonitor, counts: Seq<u32>, c0: u32)
    requires
        m.initial_window_count == Some(c0),
        !m.countdown_shown,
    ensures
        window_run(m, counts).len() == counts.len(),
        forall|k: int|
            0 <= k < counts.len() ==> (#[trigger] window_run(m, counts)[k] <==> (counts[k] < c0
                && forall|j: int| 0 <= j < k ==> counts[j] >= c0)),
    decreases counts.len(),
{
    if counts.len() > 0 {
        let rest = counts.drop_first();
        let (m1, show) = watch_step(m, MeetingSignal::WindowCount(counts[0]));
        if show {
            lemma_runs_after_countdown(m1, rest, seq![]);
        } else {
            lemma_window_run_from_baseline(m1, rest, c0);
        }
        assert forall|k: int| 0 <= k < counts.len() implies (#[trigger] window_run(m, counts)[k]
            <==> (counts[k] < c0 && forall|j: int| 0 <= j < k ==> counts[j] >= c0)) by {
            if k > 0 {
                assert(window_run(m, counts)[k] == window_run(m1, rest)[k - 1]);
                assert(counts[k] == rest[k - 1]);
                if !show {
                    if forall|j: int| 0 <= j < k - 1 ==> rest[j] >= c0 {
                        assert forall|j: int| 0 <= j < k implies counts[j] >= c0 by {
                            if j > 0 {
                                assert(counts[j] == rest[j - 1]);
                            }
                        }
                    }
                    if forall|j: int| 0 <= j < k ==> counts[j] >= c0 {
                        assert forall|j: int| 0 <= j < k - 1 implies rest[j] >= c0 by {
                            assert(counts[j + 1] == rest[j]);
                        }
                    }
                }
            }
        }
    }
}

/// The index of the first real (not failed) count of a run.
pub open spec fn first_reading(counts: Seq<u32>) -> Option<int>
    decreases counts.len(),
{
    if counts.len() == 0 {
        None
    } else if counts[0] != FAILED_WINDOW_COUNT {
        Some(0)
    } else {
        match first_reading(counts.drop_first()) {
            Some(b) => Some(b + 1),
            None => None,
        }
    }
}

/// The first real count is a real count of the run.
proof fn lemma_first_reading_in_range(counts: Seq<u32>)
    ensures
        first_reading(counts) matches Some(b) ==> 0 <= b < counts.len() && counts[b]
            != FAILED_WINDOW_COUNT,
    decreases counts.len(),
{
    if counts.len() > 0 && counts[0] == FAILED_WINDOW_COUNT {
        let rest = counts.drop_first();
        lemma_first_reading_in_range(rest);
        if let Some(b1) = first_reading(rest) {
            assert(counts[b1 + 1] == rest[b1]);
        }
    }
}

/// Window detection over a whole monitored recording: the first real count
/// is the baseline; the stop countdown comes at the first later count below
/// it and at no other poll; failed counts, and counts at or above the
/// baseline, never show it.
pub proof fn law_window_run(m: CallMonitor, counts: Seq<u32>)
    requires
        m.initial_window_count is None,
        !m.countdown_shown,
    ensures
        window_run(m, counts).len() == counts.len(),
        forall|k: int|
            0 <= k < counts.len() ==> (#[trigger] window_run(m, counts)[k] <==> (first_reading(
                counts,
            ) matches Some(b) && b < k && counts[k] < counts[b] && forall|j: int|
                b <= j < k ==> #[trigger] counts[j] >= counts[b])),
        forall|k: int|
            0 <= k < counts.len() && counts[k] == FAILED_WINDOW_COUNT ==> !#[trigger] window_run(
                m,
                counts,
            )[k],
    decreases counts.len(),
{
    if counts.len() == 0 {
        return;
    }
    let c0 = counts[0];
    let rest = counts.drop_first();
    let (m1, show) = watch_step(m, MeetingSignal::WindowCount(c0));
    assert(!show);
    lemma_first_reading_in_range(counts);
    if c0 == FAILED_WINDOW_COUNT {
        law_window_run(m1, rest);
        lemma_first_reading_in_range(rest);
        assert forall|k: int| 0 <= k < counts.len() implies (#[trigger] window_run(m, counts)[k] <==> (
        first_reading(counts) matches Some(b) && b < k && counts[k] < counts[b] && forall|j: int|
            b <= j < k ==> #[trigger] counts[j] >= counts[b])) by {
            if k > 0 {
                assert(window_run(m, counts)[k] == window_run(m1, rest)[k - 1]);
                assert(counts[k] == rest[k - 1]);
                if let Some(b1) = first_reading(rest) {
                    let b = b1 + 1;
                    assert(counts[b] == rest[b1]);
                    if forall|j: int| b1 <= j < k - 1 ==> #[trigger] rest[j] >= rest[b1] {
                        assert forall|j: int| b <= j < k implies #[trigger] counts[j] >= counts[b] by {
                            assert(counts[j] == rest[j - 1]);
                        }
                    }
                    if forall|j: int| b <= j < k ==> #[trigger] counts[j] >= counts[b] {
                        assert forall|j: int| b1 <= j < k - 1 implies #[trigger] rest[j] >= rest[b1] by {
                            assert(counts[j + 1] == rest[j]);
                        }
                    }
                }
            }
        }
    } else {
        lemma_window_run_from_baseline(m1, rest, c0);
        assert forall|k: int| 0 <= k < counts.len() implies (#[trigger] window_run(m, counts)[k] <==> (
        first_reading(counts) matches Some(b) && b < k && counts[k] < counts[b] && forall|j: int|
            b <= j < k ==> #[trigger] counts[j] >= counts[b])) by {
            assert(first_reading(counts) == Some(0int));
            if k > 0 {
                assert(window_run(m, counts)[k] == window_run(m1, rest)[k - 1]);
                assert(counts[k] == rest[k - 1]);
                if forall|j: int| 0 <= j < k - 1 ==> rest[j] >= c0 {
                    assert forall|j: int| 0 <= j < k implies #[trigger] counts[j] >= c0 by {
                        if j > 0 {
                            assert(counts[j] == rest[j - 1]);
                        }
                    }
                }
                if forall|j: int| 0 <= j < k ==> #[trigger] counts[j] >= c0 {
                    assert forall|j: int| 0 <= j < k - 1 implies rest[j] >= c0 by {
                        assert(counts[j + 1] == rest[j]);
                    }
                }
            }
        }
    }
    assert forall|k: int| 0 <= k < counts.len() && counts[k] == FAILED_WINDOW_COUNT implies !#[trigger] window_run(
        m,
        counts,
    )[k] by {
        if window_run(m, counts)[k] {
            let b = first_reading(counts)->0;
            assert(counts[k] < counts[b]);
        }
    }
}

/// The grace period in polls: at least one.
pub open spec fn grace_polls(grace_checks: u32) -> int {
    if grace_checks >= 1 {
        grace_checks as int
    } else {
        1
    }
}

/// Microphone fallback over a whole monitored recording: the stop countdown
/// comes at the first poll that completes `grace_polls` consecutive silent
/// polls (a live microphone restarts the count), and at no other poll.
pub proof fn law_mic_run(m: CallMonitor, live: Seq<bool>)
    requires
        !m.countdown_shown,
        m.silence_miss_count < grace_polls(m.grace_checks),
    ensures
        mic_run(m, live).len() == live.len(),
        silence_counts(m.silence_miss_count as int, live).len() == live.len(),
        forall|k: int|
            0 <= k < live.len() ==> (#[trigger] mic_run(m, live)[k] <==> (silence_counts(
                m.silence_miss_count as int,
                live,
            )[k] >= grace_polls(m.grace_checks) && forall|j: int|
                0 <= j < k ==> silence_counts(m.silence_miss_count as int, live)[j] < grace_polls(
                    m.grace_checks,
                ))),
    decreases live.len(),
{
    if live.len() > 0 {
        let t = grace_polls(m.grace_checks);
        let rest = live.drop_first();
        let (m1, show) = watch_step(m, MeetingSignal::Microphone(live[0]));
        let cs = silence_counts(m.silence_miss_count as int, live);
        let n = cs[0];
        let rs = silence_counts(n, rest);
        assert(cs == seq![n] + rs);
        lemma_silence_counts_len(n, rest);
        if show {
            lemma_runs_after_countdown(m1, seq![], rest);
            assert(n >= t);
        } else {
            assert(m1.silence_miss_count == n && n < t);
            law_mic_run(m1, rest);
        }
        assert forall|k: int| 0 <= k < live.len() implies (#[trigger] mic_run(m, live)[k] <==> (cs[k]
            >= t && forall|j: int| 0 <= j < k ==> cs[j] < t)) by {
            if k > 0 {
                assert(mic_run(m, live)[k] == mic_run(m1, rest)[k - 1]);
                assert(cs[k] == rs[k - 1]);
                if show {
                    assert(!(forall|j: int| 0 <= j < k ==> cs[j] < t)) by {
                        assert(cs[0] >= t);
                    }
                } else {
                    if forall|j: int| 0 <= j < k - 1 ==> rs[j] < t {
                        assert forall|j: int| 0 <= j < k implies cs[j] < t by {
                            if j > 0 {
                                assert(cs[j] == rs[j - 1]);
                            }
                        }
                    }
                    if forall|j: int| 0 <= j < k ==> cs[j] < t {
                        assert forall|j: int| 0 <= j < k - 1 implies rs[j] < t by {
                            assert(cs[j + 1] == rs[j]);
                        }
                    }
                }
            }
        }
    }
}

/// A record is kept by a filter exactly when it was there and passes.
proof fn lemma_filter_member(
    entries: Seq<(Seq<char>, u128)>,
    pred: spec_fn((Seq<char>, u128)) -> bool,
    r: (Seq<char>, u128),
)
    ensures
        entries.filter(pred).contains(r) <==> entries.contains(r) && pred(r),
{
    lemma_filter_keeps(entries, pred);
    if entries.filter(pred).contains(r) {
        let k = choose|k: int| 0 <= k < entries.filter(pred).len() && entries.filter(pred)[k] == r;
        assert(entries.contains(entries.filter(pred)[k]));
    }
    if entries.contains(r) && pred(r) {
        let k = choose|k: int| 0 <= k < entries.len() && entries[k] == r;
        entries.lemma_filter_contains(pred, k);
    }
}

/// One operation on the notification records, as the detector's methods
/// perform them.
pub enum CooldownOp {
    /// `set_cooldown_at(name, time)`.
    Notify(Seq<char>, u128),
    /// `clear_cooldown(name)`.
    Clear(Seq<char>),
    /// `clear_all_cooldowns()`.
    ClearAll,
}

/// The records after one operation.
pub open spec fn apply_op(entries: Seq<(Seq<char>, u128)>, op: CooldownOp, minutes: u64) -> Seq<
    (Seq<char>, u128),
> {
    match op {
        CooldownOp::Notify(name, at) => after_notify(entries, name, at, minutes),
        CooldownOp::Clear(name) => without_name(entries, name),
        CooldownOp::ClearAll => Seq::empty(),
    }
}

/// The records after a history of operations, oldest first.
pub open spec fn apply_ops(entries: Seq<(Seq<char>, u128)>, ops: Seq<CooldownOp>, minutes: u64) -> Seq<
    (Seq<char>, u128),
>
    decreases ops.len(),
{
    if ops.len() == 0 {
        entries
    } else {
        apply_op(apply_ops(entries, ops.drop_last(), minutes), ops.last(), minutes)
    }
}

/// When `name` was last notified in a history, unless a clear of it, or of
/// all, came after.
pub open spec fn last_notify(ops: Seq<CooldownOp>, name: Seq<char>) -> Option<u128>
    decreases ops.len(),
{
    if ops.len() == 0 {
        None
    } else {
        match ops.last() {
            CooldownOp::Notify(n, at) => if n == name {
                Some(at)
            } else {
                last_notify(ops.drop_last(), name)
            },
            CooldownOp::Clear(n) => if n == name {
                None
            } else {
                last_notify(ops.drop_last(), name)
            },
            CooldownOp::ClearAll => None,
        }
    }
}

/// Whether an operation notified no later than `at`.
pub open spec fn notified_by(op: CooldownOp, at: u128) -> bool {
    match op {
        CooldownOp::Notify(_, t) => t <= at,
        _ => true,
    }
}

/// Whether the notification times of a history never go back and are no
/// later than `now`, as readings of a monotonic clock are.
pub open spec fn in_time_order(ops: Seq<CooldownOp>, now: u128) -> bool {
    &&& forall|i: int, j: int|
        0 <= i < j < ops.len() ==> match #[trigger] ops[j] {
            CooldownOp::Notify(_, t) => notified_by(#[trigger] ops[i], t),
            _ => true,
        }
    &&& forall|i: int| 0 <= i < ops.len() ==> notified_by(#[trigger] ops[i], now)
}

/// The records agree with the history at time `cur`: each record holds its
/// name's last notification, and a last notification with no record is
/// at least two cooldowns old.
spec fn records_track(
    entries: Seq<(Seq<char>, u128)>,
    ops: Seq<CooldownOp>,
    cur: u128,
    minutes: u64,
) -> bool {
    &&& forall|i: int|
        0 <= i < entries.len() ==> (#[trigger] entries[i]).1 <= cur && last_notify(ops, entries[i].0)
            == Some(entries[i].1)
    &&& forall|q: Seq<char>|
        #[trigger] last_notify(ops, q) is Some && !entries.contains((q, last_notify(ops, q)->0))
            ==> last_notify(ops, q)->0 <= cur && age(cur, last_notify(ops, q)->0) >= 2
            * cooldown_span(minutes)
}

/// Agreement at one time carries over to any later time.
proof fn lemma_track_later(
    entries: Seq<(Seq<char>, u128)>,
    ops: Seq<CooldownOp>,
    c1: u128,
    c2: u128,
    minutes: u64,
)
    requires
        records_track(entries, ops, c1, minutes),
        c1 <= c2,
    ensures
        records_track(entries, ops, c2, minutes),
{
}

/// The records made by a history agree with it at any time no earlier than
/// its notifications.
proof fn lemma_history_tracked(ops: Seq<CooldownOp>, cur: u128, minutes: u64)
    requires
        in_time_order(ops, cur),
    ensures
        records_track(apply_ops(Seq::empty(), ops, minutes), ops, cur, minutes),
    decreases ops.len(),
{
    if ops.len() == 0 {
        return;
    }
    let init = ops.drop_last();
    let op = ops.last();
    let c0 = match op {
        CooldownOp::Notify(_, t) => t,
        _ => cur,
    };
    assert(notified_by(ops[ops.len() - 1], cur));
    assert(in_time_order(init, c0)) by {
        assert forall|i: int| 0 <= i < init.len() implies notified_by(#[trigger] init[i], c0) by {
            assert(init[i] == ops[i]);
            assert(notified_by(ops[i], cur));
            let j = ops.len() - 1;
            assert(ops[j] == op);
            if let CooldownOp::Notify(_, t) = op {
                assert(notified_by(ops[i], t));
            }
        }
        assert forall|i: int, j: int| 0 <= i < j < init.len() implies match #[trigger] init[j] {
            CooldownOp::Notify(_, t) => notified_by(#[trigger] init[i], t),
            _ => true,
        } by {
            assert(init[i] == ops[i] && init[j] == ops[j]);
        }
    }
    lemma_history_tracked(init, c0, minutes);
    let e0 = apply_ops(Seq::empty(), init, minutes);
    let e1 = apply_ops(Seq::empty(), ops, minutes);
    assert(e1 == apply_op(e0, op, minutes));
    match op {
        CooldownOp::Notify(p, t) => {
            let w = without_name(e0, p);
            let pushed = w.push((p, t));
            let young = younger(t, 2 * cooldown_span(minutes));
            assert(e1 == pushed.filter(young));
            lemma_filter_keeps(pushed, young);
            lemma_filter_keeps(e0, other_name(p));
            assert forall|i: int| 0 <= i < e1.len() implies (#[trigger] e1[i]).1 <= t && last_notify(
                ops,
                e1[i].0,
            ) == Some(e1[i].1) by {
                assert(pushed.contains(e1[i]));
                let k = choose|k: int| 0 <= k < pushed.len() && pushed[k] == e1[i];
                if k < w.len() {
                    assert(pushed[k] == w[k]);
                    assert(e0.contains(w[k]) && other_name(p)(w[k]));
                    let m = choose|m: int| 0 <= m < e0.len() && e0[m] == w[k];
                    assert(e0[m].1 <= c0);
                }
            }
            assert forall|q: Seq<char>|
                #[trigger] last_notify(ops, q) is Some && !e1.contains((q, last_notify(ops, q)->0))
                implies last_notify(ops, q)->0 <= t && age(t, last_notify(ops, q)->0) >= 2
                * cooldown_span(minutes) by {
                let s = last_notify(ops, q)->0;
                lemma_filter_member(pushed, young, (q, s));
                if q == p {
                    assert(pushed[pushed.len() - 1] == (p, t));
                } else {
                    assert(last_notify(init, q) == Some(s));
                    if e0.contains((q, s)) {
                        lemma_filter_member(e0, other_name(p), (q, s));
                        let m = choose|m: int| 0 <= m < e0.len() && e0[m] == (q, s);
                        assert(e0[m].1 <= c0);
                        assert(w.contains((q, s)));
                        let k = choose|k: int| 0 <= k < w.len() && w[k] == (q, s);
                        assert(pushed[k] == (q, s));
                    }
                }
            }
            lemma_track_later(e1, ops, t, cur, minutes);
        },
        CooldownOp::Clear(p) => {
            lemma_filter_keeps(e0, other_name(p));
            assert forall|i: int| 0 <= i < e1.len() implies (#[trigger] e1[i]).1 <= cur && last_notify(
                ops,
                e1[i].0,
            ) == Some(e1[i].1) by {
                assert(e0.contains(e1[i]) && other_name(p)(e1[i]));
                let m = choose|m: int| 0 <= m < e0.len() && e0[m] == e1[i];
                assert(e0[m].1 <= c0);
            }
            assert forall|q: Seq<char>|
                #[trigger] last_notify(ops, q) is Some && !e1.contains((q, last_notify(ops, q)->0))
                implies last_notify(ops, q)->0 <= cur && age(cur, last_notify(ops, q)->0) >= 2
                * cooldown_span(minutes) by {
                let s = last_notify(ops, q)->0;
                assert(q != p);
                assert(last_notify(init, q) == Some(s));
                lemma_filter_member(e0, other_name(p), (q, s));
            }
        },
        CooldownOp::ClearAll => {},
    }
}

/// Cooldowns over any history of notifications and clears, made with the
/// detector's clock: an app is in its cooldown exactly when its last
/// notification, with no clear of it or of all after it, is less than a
/// cooldown old. With a cooldown of zero no app ever is.
pub proof fn law_cooldown_history(ops: Seq<CooldownOp>, name: Seq<char>, now: u128, minutes: u64)
    requires
        in_time_order(ops, now),
    ensures
        cooling_down(apply_ops(Seq::empty(), ops, minutes), name, now, minutes) <==> (match last_notify(
            ops,
            name,
        ) {
            Some(at) => age(now, at) < cooldown_span(minutes),
            None => false,
        }),
        minutes == 0 ==> !cooling_down(apply_ops(Seq::empty(), ops, minutes), name, now, minutes),
{
    lemma_history_tracked(ops, now, minutes);
    let e = apply_ops(Seq::empty(), ops, minutes);
    if let Some(at) = last_notify(ops, name) {
        if age(now, at) < cooldown_span(minutes) && e.contains((name, at)) {
            let i = choose|i: int| 0 <= i < e.len() && e[i] == (name, at);
            assert(e[i].0 == name);
        }
    }
    if cooling_down(e, name, now, minutes) {
        let i = choose|i: int|
            0 <= i < e.len() && (#[trigger] e[i]).0 == name && age(now, e[i].1) < cooldown_span(minutes);
        assert(last_notify(ops, e[i].0) == Some(e[i].1));
    }
}

/// Nothing happens in a poll while a previous recording is being
/// processed, whatever the recording state; otherwise a poll that is not
/// recording looks for a call, a recording started by hand is left alone,
/// and a prompted recording is watched, by its windows exactly when its
/// app has window detection.
pub proof fn law_poll_plan(processing: bool, is_recording: bool, triggered_app: Option<Seq<char>>)
    ensures
        processing ==> poll_plan(processing, is_recording, triggered_app) == PollPlan::Skip,
        !processing && !is_recording ==> poll_plan(processing, is_recording, triggered_app)
            == PollPlan::DetectCall,
        !processing && is_recording && triggered_app is None ==> poll_plan(
            processing,
            is_recording,
            triggered_app,
        ) == PollPlan::KeepRecording,
        (!processing && is_recording && triggered_app is Some) ==> (poll_plan(
            processing,
            is_recording,
            triggered_app,
        ) == PollPlan::WatchWindows <==> window_detectable(triggered_app->0)) && poll_plan(
            processing,
            is_recording,
            triggered_app,
        ) != PollPlan::Skip && poll_plan(processing, is_recording, triggered_app)
            != PollPlan::DetectCall,
{
}

/// With the microphone in use, a call is detected exactly when some
/// configured app and some running process have lowercased names of which
/// one contains the other anywhere; the app reported is the first such
/// configured app, shown under its display name.
pub proof fn law_detection_by_containment(apps: Seq<Seq<char>>, running: Seq<Seq<char>>)
    ensures
        detected_call(apps, running, true) is Some <==> exists|i: int, j: int|
            0 <= i < apps.len() && 0 <= j < running.len() && (contains_chars(
                lowercase(#[trigger] running[j]),
                lowercase(#[trigger] apps[i]),
            ) || contains_chars(lowercase(apps[i]), lowercase(running[j]))),
        detected_call(apps, running, true) matches Some(call) ==> exists|i: int|
            0 <= i < apps.len() && call.1 == #[trigger] apps[i] && call.0 == display_name(apps[i])
                && (exists|j: int|
                0 <= j < running.len() && (contains_chars(
                    lowercase(#[trigger] running[j]),
                    lowercase(apps[i]),
                ) || contains_chars(lowercase(apps[i]), lowercase(running[j])))) && forall|k: int|
                0 <= k < i ==> forall|j: int|
                    0 <= j < running.len() ==> !contains_chars(
                        lowercase(#[trigger] running[j]),
                        lowercase(#[trigger] apps[k]),
                    ) && !contains_chars(lowercase(apps[k]), lowercase(running[j])),
{
    lemma_first_running_is_first(apps, running);
    if exists|i: int, j: int|
        0 <= i < apps.len() && 0 <= j < running.len() && (contains_chars(
            lowercase(#[trigger] running[j]),
            lowercase(#[trigger] apps[i]),
        ) || contains_chars(lowercase(apps[i]), lowercase(running[j]))) {
        let (i, j) = choose|i: int, j: int|
            0 <= i < apps.len() && 0 <= j < running.len() && (contains_chars(
                lowercase(#[trigger] running[j]),
                lowercase(#[trigger] apps[i]),
            ) || contains_chars(lowercase(apps[i]), lowercase(running[j])));
        assert(names_overlap(lowercase(apps[i]), lowercase(running[j])));
        assert(app_running(apps[i], running));
    }
    if let Some(i) = first_running_app(apps, running) {
        assert(app_running(apps[i], running));
        let j = choose|j: int|
            0 <= j < running.len() && names_overlap(lowercase(apps[i]), lowercase(#[trigger] running[j]));
        assert(contains_chars(lowercase(running[j]), lowercase(apps[i])) || contains_chars(
            lowercase(apps[i]),
            lowercase(running[j]),
        ));
        assert forall|k: int| 0 <= k < i implies forall|j: int|
            0 <= j < running.len() ==> !contains_chars(
                lowercase(#[trigger] running[j]),
                lowercase(#[trigger] apps[k]),
            ) && !contains_chars(lowercase(apps[k]), lowercase(running[j])) by {
            assert(!app_running(apps[k], running));
            assert forall|j: int| 0 <= j < running.len() implies !contains_chars(
                lowercase(#[trigger] running[j]),
                lowercase(apps[k]),
            ) && !contains_chars(lowercase(apps[k]), lowercase(running[j])) by {
                assert(!names_overlap(lowercase(apps[k]), lowercase(running[j])));
            }
        }
    }
}

/// `first_running_app` finds the first running app, if any.
proof fn lemma_first_running_is_first(apps: Seq<Seq<char>>, running: Seq<Seq<char>>)
    ensures
        first_running_app(apps, running) is None <==> forall|i: int|
            0 <= i < apps.len() ==> !app_running(#[trigger] apps[i], running),
        first_running_app(apps, running) matches Some(i) ==> 0 <= i < apps.len() && app_running(
            apps[i],
            running,
        ) && forall|k: int| 0 <= k < i ==> !app_running(#[trigger] apps[k], running),
    decreases apps.len(),
{
    if apps.len() > 0 {
        let init = apps.drop_last();
        lemma_first_running_is_first(init, running);
        assert forall|k: int| 0 <= k < init.len() implies init[k] == apps[k] by {}
        if first_running_app(init, running) is None {
            assert forall|i: int| 0 <= i < apps.len() - 1 implies !app_running(#[trigger] apps[i], running) by {
                assert(init[i] == apps[i]);
            }
        }
    }
}

} // verus!
