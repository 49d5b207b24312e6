use lark::detect::{
    call_mic, match_meeting_app, mic_using_meeting_apps, Detector, InputDevice, SoundProcess,
};
use lark::meeting::MeetingStatus;
use lark::watchdog::{
    choose_mic, next_mic_action, resolve_mic_device, Look, MicAction, MicResolution, MicSettings, MicStatus,
    MicStream, Watchdog,
};

fn names(v: &[&str]) -> Vec<String> {
    v.iter().map(|s| s.to_string()).collect()
}

fn settings(selected: Option<&str>, clamshell: Option<&str>) -> MicSettings {
    MicSettings {
        selected: selected.map(|s| s.to_string()),
        clamshell: clamshell.map(|s| s.to_string()),
    }
}

#[test]
fn the_pinned_microphone_is_found_or_missed() {
    let devices = names(&["Built-in", "Jabra", "Jabra"]);
    let r = resolve_mic_device(&settings(Some("Jabra"), None), false, &devices);
    assert_eq!((r.device, r.pinned.as_deref(), r.pin_missed), (Some(1), Some("Jabra"), false));
    let r = resolve_mic_device(&settings(Some("AirPods"), None), false, &devices);
    assert_eq!((r.device, r.pinned.as_deref(), r.pin_missed), (None, Some("AirPods"), true));
    let r = resolve_mic_device(&settings(None, None), false, &devices);
    assert_eq!((r.device, r.pinned.as_deref(), r.pin_missed), (None, None, false));
    let both = settings(Some("Jabra"), Some("Built-in"));
    assert_eq!(resolve_mic_device(&both, true, &devices).device, Some(0));
    assert_eq!(resolve_mic_device(&both, false, &devices).device, Some(1));
    assert_eq!(resolve_mic_device(&settings(Some("Jabra"), None), true, &devices).device, Some(1));
}

#[test]
fn silence_is_counted_from_signal_or_restart() {
    let mut mic = MicStream::new(false);
    assert_eq!(mic.silent_ms(5_000, 1_000), 4_000);
    mic.last_restart_ms = 4_500;
    assert_eq!(mic.silent_ms(5_000, 1_000), 500);
    assert_eq!(mic.silent_ms(4_000, 1_000), 0);
}

#[test]
fn silence_shows_when_it_begins_and_when_it_ends() {
    let mut dog = Watchdog::new();
    let mic = MicStream::new(true);
    assert_eq!(dog.look(&mic, 2_999, 0).notice, None);
    let look = dog.look(&mic, 3_000, 0);
    assert_eq!(look.notice, Some(MicStatus { flowing: false, pin_missed: true }));
    assert_eq!(look.silent_ms, 3_000);
    assert_eq!(dog.look(&mic, 3_500, 0).notice, None);
    let look = dog.look(&mic, 4_000, 3_900);
    assert_eq!(look.notice, Some(MicStatus { flowing: true, pin_missed: true }));
}

#[test]
fn a_missed_pin_is_looked_for_every_five_seconds() {
    let mut dog = Watchdog::new();
    let mic = MicStream::new(true);
    assert!(!dog.look(&mic, 4_999, 4_999).recheck_pin);
    assert!(dog.look(&mic, 5_000, 5_000).recheck_pin);
    assert!(!dog.look(&mic, 9_999, 9_999).recheck_pin);
    assert!(dog.look(&mic, 10_000, 10_000).recheck_pin);
    assert!(!dog.look(&MicStream::new(false), 90_000, 90_000).recheck_pin);
}

fn seen(silent_ms: u64, recheck_pin: bool) -> Look {
    Look { notice: None, silent_ms, recheck_pin }
}

fn resolution(pin_missed: bool) -> MicResolution {
    MicResolution { device: None, pinned: Some("Jabra".to_string()), pin_missed }
}

#[test]
fn a_silent_microphone_is_restarted_three_times() {
    let mut mic = MicStream::new(true);
    assert_eq!(next_mic_action(&mic, &seen(2_999, false), None, false), MicAction::Nothing);
    for n in 1..=3 {
        let missed = resolution(true);
        assert_eq!(next_mic_action(&mic, &seen(3_000, true), Some(&missed), false), MicAction::Restart);
        assert_eq!(next_mic_action(&mic, &seen(3_000, false), None, false), MicAction::Restart);
        assert_eq!(mic.restarted(true, 3_000 * n), n == 3);
    }
    assert_eq!(next_mic_action(&mic, &seen(60_000, false), None, false), MicAction::Nothing);
    // The budget spent, the pin is still switched to, with a new budget.
    let found = resolution(false);
    assert_eq!(next_mic_action(&mic, &seen(60_000, true), Some(&found), false), MicAction::Switch);
    assert_eq!(next_mic_action(&mic, &seen(0, true), Some(&found), false), MicAction::Switch);
    assert_eq!(mic.switched(false, false, 60_000), None);
    assert_eq!(mic.restarts, 3);
    assert_eq!(
        mic.switched(true, false, 60_000),
        Some(MicStatus { flowing: true, pin_missed: false })
    );
    assert_eq!(mic, MicStream { last_restart_ms: 60_000, restarts: 0, pin_missed: false });
}

#[test]
fn a_picked_microphone_is_switched_to_at_the_next_look() {
    let mut mic = MicStream { last_restart_ms: 1, restarts: 3, pin_missed: false };
    assert_eq!(next_mic_action(&mic, &seen(0, false), None, true), MicAction::Switch);
    assert_eq!(next_mic_action(&mic, &seen(0, false), None, false), MicAction::Nothing);
    // Back to automatic, the pinned one may be missing.
    assert_eq!(
        mic.switched(true, true, 9_000),
        Some(MicStatus { flowing: true, pin_missed: true })
    );
    assert_eq!(mic, MicStream { last_restart_ms: 9_000, restarts: 0, pin_missed: true });
}

#[test]
fn a_pick_comes_before_the_call_and_the_call_before_the_pin() {
    let devices = names(&["Built-in", "Jabra", "AirPods"]);
    let pins = settings(Some("Built-in"), None);
    let chosen = |manual: Option<&str>, call: Option<&str>, pins: &MicSettings| {
        let r = choose_mic(manual, call, pins, false, &devices);
        (r.device, r.pinned, r.pin_missed)
    };
    let named = |k: usize, name: &str| (Some(k), Some(name.to_string()), false);
    assert_eq!(chosen(Some("Jabra"), Some("AirPods"), &pins), named(1, "Jabra"));
    assert_eq!(chosen(None, Some("AirPods"), &pins), named(2, "AirPods"));
    assert_eq!(chosen(Some("Gone"), Some("AirPods"), &pins), named(2, "AirPods"));
    assert_eq!(chosen(Some("Gone"), Some("Gone too"), &pins), named(0, "Built-in"));
    assert_eq!(chosen(None, None, &pins), named(0, "Built-in"));
    let missing = settings(Some("Elsewhere"), None);
    assert_eq!(chosen(Some("Jabra"), None, &missing), named(1, "Jabra"));
    assert_eq!(chosen(None, None, &missing), (None, Some("Elsewhere".to_string()), true));
    assert_eq!(chosen(None, None, &settings(None, None)), (None, None, false));
}

#[test]
fn meeting_apps_are_known_by_id_or_by_path() {
    assert_eq!(match_meeting_app(Some("us.zoom.xos"), None), Some("Zoom"));
    assert_eq!(match_meeting_app(Some("com.google.Chrome.helper"), None), Some("Chrome"));
    assert_eq!(match_meeting_app(Some("com.microsoft.teams2"), None), Some("Teams"));
    assert_eq!(match_meeting_app(Some("Cisco-Systems.Spark"), None), Some("Webex"));
    assert_eq!(match_meeting_app(Some("com.example"), None), None);
    assert_eq!(
        match_meeting_app(None, Some("/Applications/Brave Browser.app/Helper")),
        Some("Brave")
    );
    assert_eq!(
        match_meeting_app(Some("com.example"), Some("/Applications/Arc.app/x")),
        Some("Arc")
    );
    // The id wins over the path.
    assert_eq!(
        match_meeting_app(Some("com.apple.Safari"), Some("/Applications/Firefox.app")),
        Some("Safari")
    );
    assert_eq!(match_meeting_app(None, Some("/usr/bin/vim")), None);
    assert_eq!(match_meeting_app(None, None), None);
}

fn process(pid: Option<i32>, runs_input: bool, id: &str, devices: &[(Option<&str>, bool)]) -> SoundProcess {
    SoundProcess {
        pid,
        runs_input,
        bundle_id: Some(id.to_string()),
        path: None,
        devices: devices
            .iter()
            .map(|(n, v)| InputDevice { name: n.map(|s| s.to_string()), is_virtual: *v })
            .collect(),
    }
}

#[test]
fn each_holder_of_the_microphone_is_named_once() {
    let ps = vec![
        process(Some(1), true, "us.zoom.xos", &[]),
        process(Some(2), true, "com.apple.Safari", &[]),
        process(Some(3), false, "com.hnc.Discord", &[]),
        process(None, true, "com.hnc.Discord", &[]),
        process(Some(4), true, "com.apple.Safari.helper", &[]),
        process(Some(5), true, "us.zoom.xos", &[]),
    ];
    assert_eq!(mic_using_meeting_apps(9, &ps), vec!["Zoom", "Safari"]);
    assert_eq!(mic_using_meeting_apps(1, &ps), vec!["Safari", "Zoom"]);
    assert_eq!(mic_using_meeting_apps(9, &Vec::new()), Vec::<&str>::new());
}

#[test]
fn the_call_microphone_is_the_first_real_one() {
    let ps = vec![
        process(Some(1), true, "com.example", &[(Some("Built-in"), false)]),
        process(Some(2), true, "us.zoom.xos", &[(None, false), (Some("ZoomAudio"), true)]),
        process(Some(3), true, "com.apple.Safari", &[(Some("Loop"), true), (Some("Jabra"), false)]),
    ];
    let mic = call_mic(9, &ps).unwrap();
    assert_eq!((mic.device_name.as_str(), mic.app), ("Jabra", "Safari"));
    assert!(call_mic(3, &ps).is_none());
}

#[test]
fn a_call_is_offered_once_in_five_minutes() {
    let mut d = Detector::new();
    let step = d.poll(vec!["Zoom"], MeetingStatus::Idle, 0);
    assert_eq!((step.start_standby, step.offer_start), (Some("Zoom"), Some("Zoom")));
    let step = d.poll(vec!["Zoom"], MeetingStatus::Idle, 2_000);
    assert_eq!((step.start_standby, step.offer_start), (None, None));
    assert!(d.poll(vec![], MeetingStatus::Idle, 4_000).stop_standby);
    // A new call too soon: kept, but not offered.
    let step = d.poll(vec!["Teams"], MeetingStatus::Processing, 299_999);
    assert_eq!((step.start_standby, step.offer_start), (Some("Teams"), None));
    d.poll(vec![], MeetingStatus::Idle, 299_999);
    assert_eq!(d.poll(vec!["Slack"], MeetingStatus::Idle, 300_000).offer_start, Some("Slack"));
}

#[test]
fn a_recording_is_not_offered_again() {
    let mut d = Detector::new();
    let step = d.poll(vec!["Zoom"], MeetingStatus::Recording, 0);
    assert_eq!((step.start_standby, step.offer_start), (None, None));
    assert_eq!(d.last_prompt, None);
}

#[test]
fn a_recording_stops_twenty_seconds_after_its_call() {
    let mut d = Detector::new();
    d.poll(vec!["Zoom"], MeetingStatus::Recording, 0);
    let step = d.poll(vec![], MeetingStatus::Recording, 1_000);
    assert_eq!((step.offer_stop, step.auto_stop, step.stop_standby), (Some("Zoom"), false, false));
    assert!(!d.poll(vec![], MeetingStatus::Recording, 20_999).auto_stop);
    assert!(d.poll(vec![], MeetingStatus::Recording, 21_000).auto_stop);
    assert!(!d.poll(vec![], MeetingStatus::Recording, 90_000).auto_stop);
}

#[test]
fn a_call_that_resumes_or_was_stopped_is_left_alone() {
    let mut d = Detector::new();
    d.poll(vec!["Zoom"], MeetingStatus::Recording, 0);
    d.poll(vec![], MeetingStatus::Recording, 1_000);
    let step = d.poll(vec!["Zoom"], MeetingStatus::Recording, 3_000);
    assert!(step.resume && !step.auto_stop);
    d.poll(vec![], MeetingStatus::Recording, 5_000);
    d.poll(vec![], MeetingStatus::Processing, 7_000);
    assert_eq!(d.call_end, None);
    assert!(!d.poll(vec![], MeetingStatus::Recording, 90_000).auto_stop);
}
