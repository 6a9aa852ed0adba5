use minutes_app::call_detect::{
    plan_poll, CallDetectionConfig, CallDetector, CallMonitor, MeetingSignal, PollPlan,
};
use minutes_app::names::{display_name_for, has_window_detection, window_count_probe, WindowProbe};

fn detector(cooldown_minutes: u64, apps: &[&str]) -> CallDetector {
    CallDetector::new(CallDetectionConfig {
        enabled: true,
        poll_interval_secs: 1,
        cooldown_minutes,
        apps: apps.iter().map(|a| a.to_string()).collect(),
    })
}

fn names(v: &[&str]) -> Vec<String> {
    v.iter().map(|s| s.to_string()).collect()
}

#[test]
fn cooldown_tracking() {
    let mut detector = CallDetector::new(CallDetectionConfig {
        enabled: true,
        poll_interval_secs: 1,
        cooldown_minutes: 5,
        apps: vec!["zoom.us".into()],
    });

    assert!(!detector.in_cooldown("zoom.us"));
    detector.set_cooldown("zoom.us");
    assert!(detector.in_cooldown("zoom.us"));
    assert!(!detector.in_cooldown("FaceTime"));
}

#[test]
fn cooldown_clear() {
    let mut detector = CallDetector::new(CallDetectionConfig {
        enabled: true,
        poll_interval_secs: 1,
        cooldown_minutes: 5,
        apps: vec!["zoom.us".into()],
    });

    detector.set_cooldown("zoom.us");
    assert!(detector.in_cooldown("zoom.us"));
    detector.clear_cooldown("zoom.us");
    assert!(!detector.in_cooldown("zoom.us"));
}

#[test]
fn display_names() {
    assert_eq!(display_name_for("zoom.us"), "Zoom");
    assert_eq!(display_name_for("Microsoft Teams"), "Teams");
    assert_eq!(display_name_for("MSTeams"), "Teams");
    assert_eq!(display_name_for("FaceTime"), "FaceTime");
    assert_eq!(display_name_for("SomeOtherApp"), "SomeOtherApp");
}

#[test]
fn window_detection_mapping() {
    assert!(has_window_detection("Microsoft Teams"));
    assert!(has_window_detection("MSTeams"));
    assert!(has_window_detection("Teams"));
    assert!(has_window_detection("zoom.us"));
    assert!(has_window_detection("FaceTime"));
    assert!(has_window_detection("Slack"));
    assert!(!has_window_detection("SomeOtherApp"));
}

#[test]
fn display_names_of_other_teams_and_apps() {
    assert_eq!(display_name_for("Microsoft Teams (work or school)"), "Teams");
    assert_eq!(display_name_for("Webex"), "Webex");
    assert_eq!(display_name_for("Slack"), "Slack");
    assert_eq!(display_name_for("Zoom"), "Zoom");
    assert_eq!(display_name_for(""), "");
}

#[test]
fn window_probe_matches_window_detection() {
    for app in ["Microsoft Teams", "Microsoft Teams (work or school)", "MSTeams", "Teams",
        "zoom.us", "Zoom", "FaceTime", "Slack", "Webex", "SomeOtherApp", "zoom", ""] {
        assert_eq!(window_count_probe(app).is_some(), has_window_detection(app), "{}", app);
    }
    assert_eq!(window_count_probe("MSTeams"), Some(WindowProbe::Teams));
    assert_eq!(window_count_probe("Zoom"), Some(WindowProbe::Zoom));
    assert_eq!(window_count_probe("zoom.us"), Some(WindowProbe::Zoom));
    assert_eq!(window_count_probe("FaceTime"), Some(WindowProbe::FaceTime));
    assert_eq!(window_count_probe("Slack"), Some(WindowProbe::Slack));
    assert_eq!(window_count_probe("Webex"), None);
}

#[test]
fn cooldown_expires_with_time() {
    let mut d = detector(5, &["zoom.us"]);
    let minute: u128 = 60_000_000_000;
    d.set_cooldown_at("zoom.us", 10 * minute);
    assert!(d.in_cooldown_at("zoom.us", 10 * minute));
    assert!(d.in_cooldown_at("zoom.us", 15 * minute - 1));
    assert!(!d.in_cooldown_at("zoom.us", 15 * minute));
    // an earlier reading counts as no time passed
    assert!(d.in_cooldown_at("zoom.us", 0));
}

#[test]
fn set_cooldown_prunes_old_records() {
    let mut d = detector(5, &["zoom.us", "FaceTime"]);
    let minute: u128 = 60_000_000_000;
    d.set_cooldown_at("zoom.us", 0);
    d.set_cooldown_at("FaceTime", 9 * minute);
    // zoom.us is nine minutes old: out of its cooldown but kept
    assert!(!d.in_cooldown_at("zoom.us", 9 * minute));
    d.set_cooldown_at("FaceTime", 10 * minute);
    // now zoom.us is ten minutes old: pruned; a clear changes nothing
    assert!(!d.in_cooldown_at("zoom.us", 10 * minute));
    assert!(d.in_cooldown_at("FaceTime", 10 * minute));
}

#[test]
fn zero_cooldown_never_holds() {
    let mut d = detector(0, &["zoom.us"]);
    d.set_cooldown("zoom.us");
    assert!(!d.in_cooldown("zoom.us"));
    d.set_cooldown_at("zoom.us", 5);
    assert!(!d.in_cooldown_at("zoom.us", 5));
}

#[test]
fn clear_all_cooldowns_forgets_everything() {
    let mut d = detector(5, &["zoom.us"]);
    d.set_cooldown_at("zoom.us", 1);
    d.set_cooldown_at("Slack", 1);
    d.clear_all_cooldowns();
    assert!(!d.in_cooldown_at("zoom.us", 1));
    assert!(!d.in_cooldown_at("Slack", 1));
}

#[test]
fn detection_needs_the_microphone() {
    let d = detector(5, &["zoom.us"]);
    assert_eq!(d.detect_active_call(false, &names(&["zoom.us"])), None);
    assert_eq!(
        d.detect_active_call(true, &names(&["zoom.us"])),
        Some(("Zoom".to_string(), "zoom.us".to_string()))
    );
}

#[test]
fn detection_matches_substrings_ignoring_case() {
    let d = detector(5, &["Microsoft Teams", "zoom.us"]);
    let running = names(&["launchd", "Microsoft Teams Helper", "ZOOM.US"]);
    assert_eq!(
        d.detect_active_call(true, &running),
        Some(("Teams".to_string(), "Microsoft Teams".to_string()))
    );
    let d = detector(5, &["zoom.us"]);
    assert_eq!(
        d.detect_active_call(true, &names(&["ZOOM.US"])),
        Some(("Zoom".to_string(), "zoom.us".to_string()))
    );
    // a process name contained in the configured name matches too
    let d = detector(5, &["FaceTime Video"]);
    assert_eq!(
        d.detect_active_call(true, &names(&["facetime"])),
        Some(("FaceTime Video".to_string(), "FaceTime Video".to_string()))
    );
    let d = detector(5, &["Webex"]);
    assert_eq!(d.detect_active_call(true, &names(&["Slack", "zoom.us"])), None);
}

#[test]
fn prompt_once_per_cooldown() {
    let mut d = detector(5, &["zoom.us"]);
    let running = names(&["zoom.us"]);
    let minute: u128 = 60_000_000_000;
    let p = d.prompt_for_call(true, &running, minute).expect("first prompt");
    assert_eq!(p.app_name, "Zoom");
    assert_eq!(p.process_name, "zoom.us");
    assert!(d.prompt_for_call(true, &running, 3 * minute).is_none());
    assert!(d.prompt_for_call(true, &running, 6 * minute).is_some());
    assert!(d.prompt_for_call(false, &running, 20 * minute).is_none());
}

#[test]
fn recording_stop_clears_cooldowns() {
    let mut d = detector(5, &["zoom.us"]);
    let mut m = CallMonitor::new(3);
    let running = names(&["zoom.us"]);
    assert!(d.prompt_for_call(true, &running, 0).is_some());
    // a recording started from the prompt
    m.keep_recording();
    assert!(m.was_recording);
    // it stopped: cooldowns go, the triggering app is cleared
    assert!(d.begin_detection(&mut m, true));
    assert!(!m.was_recording);
    assert!(d.prompt_for_call(true, &running, 1).is_some());
    // not after a poll that was not recording
    assert!(!d.begin_detection(&mut m, true));
}

#[test]
fn poll_plans() {
    assert_eq!(plan_poll(true, true, Some("zoom.us")), PollPlan::Skip);
    assert_eq!(plan_poll(false, true, Some("zoom.us")), PollPlan::WatchWindows);
    assert_eq!(plan_poll(false, true, Some("Webex")), PollPlan::WatchMicrophone);
    assert_eq!(plan_poll(false, true, None), PollPlan::KeepRecording);
    assert_eq!(plan_poll(false, false, Some("zoom.us")), PollPlan::DetectCall);
    assert_eq!(plan_poll(false, false, None), PollPlan::DetectCall);
}

#[test]
fn monitor_grace_period() {
    assert_eq!(CallMonitor::new(3).grace_checks, 10);
    assert_eq!(CallMonitor::new(0).grace_checks, 30);
    assert_eq!(CallMonitor::new(7).grace_checks, 4);
    assert_eq!(CallMonitor::new(31).grace_checks, 0);
}

#[test]
fn window_drop_shows_countdown_once() {
    let mut d = detector(5, &["zoom.us"]);
    d.set_cooldown_at("zoom.us", 0);
    let mut m = CallMonitor::new(3);
    assert!(!d.watch_meeting(&mut m, "zoom.us", MeetingSignal::WindowCount(3)));
    assert_eq!(m.initial_window_count, Some(3));
    assert!(!d.watch_meeting(&mut m, "zoom.us", MeetingSignal::WindowCount(4)));
    assert!(d.in_cooldown_at("zoom.us", 0));
    assert!(d.watch_meeting(&mut m, "zoom.us", MeetingSignal::WindowCount(2)));
    assert!(m.countdown_shown);
    assert!(!d.in_cooldown_at("zoom.us", 0));
    assert!(!d.watch_meeting(&mut m, "zoom.us", MeetingSignal::WindowCount(1)));
    // the user continued: monitoring starts afresh
    m.keep_recording();
    assert_eq!(m.initial_window_count, None);
    assert!(!m.countdown_shown);
}

#[test]
fn microphone_silence_after_grace() {
    let mut d = detector(5, &["Webex"]);
    let mut m = CallMonitor::new(10);
    assert_eq!(m.grace_checks, 3);
    assert!(!d.watch_meeting(&mut m, "Webex", MeetingSignal::Microphone(false)));
    assert!(!d.watch_meeting(&mut m, "Webex", MeetingSignal::Microphone(false)));
    assert!(!d.watch_meeting(&mut m, "Webex", MeetingSignal::Microphone(true)));
    assert_eq!(m.silence_miss_count, 0);
    assert!(!d.watch_meeting(&mut m, "Webex", MeetingSignal::Microphone(false)));
    assert!(!d.watch_meeting(&mut m, "Webex", MeetingSignal::Microphone(false)));
    assert!(d.watch_meeting(&mut m, "Webex", MeetingSignal::Microphone(false)));
    assert_eq!(m.silence_miss_count, 0);
    assert!(!d.watch_meeting(&mut m, "Webex", MeetingSignal::Microphone(false)));
}

#[test]
fn poll_interval_and_enabled() {
    let d = detector(5, &[]);
    assert_eq!(d.poll_interval_secs(), Some(1));
    let d = CallDetector::new(CallDetectionConfig {
        enabled: true,
        poll_interval_secs: 0,
        cooldown_minutes: 5,
        apps: vec![],
    });
    assert_eq!(d.poll_interval_secs(), Some(1));
    let d = CallDetector::new(CallDetectionConfig {
        enabled: false,
        poll_interval_secs: 9,
        cooldown_minutes: 5,
        apps: vec![],
    });
    assert_eq!(d.poll_interval_secs(), None);
    assert_eq!(d.config().poll_interval_secs, 9);
}

#[test]
fn checked_prompt_with_huge_cooldowns() {
    let running = names(&["zoom.us"]);
    // no detected call: nothing to compute, no error
    let mut d = detector(u64::MAX, &["zoom.us"]);
    assert_eq!(d.prompt_for_call_checked(false, &running, 0).ok().map(|p| p.is_none()), Some(true));
    assert_eq!(d.prompt_for_call_checked(true, &names(&["Slack"]), 0).ok().map(|p| p.is_none()), Some(true));
    // a detected call with a cooldown past u64::MAX seconds
    assert!(d.prompt_for_call_checked(true, &running, 0).is_err());
    // the cooldown fits, twice it does not
    let mut d = detector(u64::MAX / 100, &["zoom.us"]);
    assert!(d.prompt_for_call_checked(true, &running, 0).is_err());
    // ordinary settings behave as prompt_for_call
    let mut d = detector(5, &["zoom.us"]);
    let p = d.prompt_for_call_checked(true, &running, 0).unwrap().unwrap();
    assert_eq!(p.app_name, "Zoom");
    assert!(d.prompt_for_call_checked(true, &running, 1).unwrap().is_none());
    // the unchecked prompt needs no bound when no call is detected
    let mut d = detector(u64::MAX, &["zoom.us"]);
    assert!(d.prompt_for_call(false, &running, 0).is_none());
}

#[test]
fn window_run_shows_at_first_drop_only() {
    let mut d = detector(5, &["zoom.us"]);
    let mut m = CallMonitor::new(3);
    let counts = [2u32, 3, 2, 5, 1, 0, 2, 1];
    let shown: Vec<bool> = counts
        .iter()
        .map(|c| d.watch_meeting(&mut m, "zoom.us", MeetingSignal::WindowCount(*c)))
        .collect();
    assert_eq!(shown, vec![false, false, false, false, true, false, false, false]);
}

#[test]
fn mic_run_with_zero_grace_shows_on_first_silence() {
    let mut d = detector(5, &["Webex"]);
    let mut m = CallMonitor::new(31);
    assert_eq!(m.grace_checks, 0);
    assert!(!d.watch_meeting(&mut m, "Webex", MeetingSignal::Microphone(true)));
    assert!(d.watch_meeting(&mut m, "Webex", MeetingSignal::Microphone(false)));
    assert!(!d.watch_meeting(&mut m, "Webex", MeetingSignal::Microphone(false)));
}

#[test]
fn cooldown_history() {
    let minute: u128 = 60_000_000_000;
    let mut d = detector(5, &["zoom.us", "Slack"]);
    d.set_cooldown_at("zoom.us", minute);
    d.set_cooldown_at("Slack", 2 * minute);
    d.clear_cooldown("Slack");
    d.set_cooldown_at("zoom.us", 4 * minute);
    // zoom.us: last notified at 4 min
    assert!(d.in_cooldown_at("zoom.us", 8 * minute));
    assert!(!d.in_cooldown_at("zoom.us", 9 * minute));
    // Slack: cleared after its notification
    assert!(!d.in_cooldown_at("Slack", 4 * minute));
    // names compare exactly
    assert!(!d.in_cooldown_at("Zoom.us", 4 * minute));
    d.clear_all_cooldowns();
    assert!(!d.in_cooldown_at("zoom.us", 4 * minute));
}

#[test]
fn failed_window_counts_never_stop_a_meeting() {
    let mut d = detector(5, &["zoom.us"]);
    let mut m = CallMonitor::new(3);
    // a failed first count is no baseline
    assert!(!d.watch_meeting(&mut m, "zoom.us", MeetingSignal::WindowCount(u32::MAX)));
    assert_eq!(m.initial_window_count, None);
    assert!(!d.watch_meeting(&mut m, "zoom.us", MeetingSignal::WindowCount(2)));
    assert_eq!(m.initial_window_count, Some(2));
    // a failed later count is no drop
    assert!(!d.watch_meeting(&mut m, "zoom.us", MeetingSignal::WindowCount(u32::MAX)));
    assert!(d.watch_meeting(&mut m, "zoom.us", MeetingSignal::WindowCount(1)));
}
