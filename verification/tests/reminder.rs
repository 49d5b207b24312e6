use lark::calendar::{CalendarEvent, NextMeeting, UpcomingEvent};
use lark::clock::CivilTime;
use lark::reminder::{fire_delay, tick, tick_at, tick_on, ReminderLog, MAX_HOLD_SECS};
use lark::tray::MEETING_TICK_SECS;

#[test]
fn holds_to_the_exact_lead_when_the_tick_straddles_it() {
    assert_eq!(fire_delay(60 + MAX_HOLD_SECS, 60), Some(MAX_HOLD_SECS));
    assert_eq!(fire_delay(73, 60), Some(13));
}

#[test]
fn fires_immediately_once_inside_the_lead() {
    // Lark launched 40 seconds before the meeting: announce now.
    assert_eq!(fire_delay(40, 60), Some(0));
    assert_eq!(fire_delay(60, 60), Some(0));
}

#[test]
fn stays_quiet_while_the_meeting_is_still_far_off() {
    assert_eq!(fire_delay(60 + MAX_HOLD_SECS + 1, 60), None);
    assert_eq!(fire_delay(3600, 60), None);
}

#[test]
fn never_announces_a_meeting_that_already_started() {
    assert_eq!(fire_delay(0, 60), None);
    assert_eq!(fire_delay(-300, 60), None);
}

#[test]
fn a_longer_lead_moves_the_window_with_it() {
    assert_eq!(fire_delay(5 * 60 + 4, 5 * 60), Some(4));
    assert_eq!(fire_delay(2 * 60, 5 * 60), Some(0));
}

#[test]
fn the_hold_is_one_tick() {
    assert_eq!(MAX_HOLD_SECS as u64, MEETING_TICK_SECS);
}

fn day(day: u32) -> CivilTime {
    CivilTime { year: 2026, month: 8, day, hour: 9, minute: 0 }
}

fn upcoming(title: &str, starts_in_secs: i64, start_hm: &str) -> NextMeeting {
    NextMeeting::Upcoming(UpcomingEvent {
        title: title.to_string(),
        starts_in_secs,
        start_hm: start_hm.to_string(),
    })
}

#[test]
fn each_occurrence_is_announced_once() {
    let mut log = ReminderLog::new();
    let first = tick_on(&mut log, 1, &upcoming("Standup", 73, "09:00"), &day(10)).unwrap();
    assert_eq!((first.hold_secs, first.title.as_str(), first.minutes), (13, "Standup", 1));
    assert_eq!(log.last_fired.as_deref(), Some("Standup@2026-08-10 09:00"));
    assert!(tick_on(&mut log, 1, &upcoming("Standup", 43, "09:00"), &day(10)).is_none());
    // Moved, it is announced again; and so it is the next day.
    assert!(tick_on(&mut log, 1, &upcoming("Standup", 43, "09:30"), &day(10)).is_some());
    assert!(tick_on(&mut log, 1, &upcoming("Standup", 43, "09:30"), &day(11)).is_some());
}

#[test]
fn nothing_is_announced_without_a_lead_or_a_meeting() {
    let mut log = ReminderLog::new();
    assert!(tick_on(&mut log, 0, &upcoming("Standup", 30, "09:00"), &day(10)).is_none());
    assert!(tick_on(&mut log, 1, &NextMeeting::Clear, &day(10)).is_none());
    assert!(tick_on(&mut log, 1, &NextMeeting::Unavailable, &day(10)).is_none());
    assert!(tick_on(&mut log, 1, &upcoming("Standup", 91, "09:00"), &day(10)).is_none());
    assert_eq!(log.last_fired, None);
}

#[test]
fn a_wild_lead_is_cut_to_two_hours() {
    let mut log = ReminderLog::new();
    let card = tick_on(&mut log, 9000, &upcoming("Standup", 7210, "09:00"), &day(10)).unwrap();
    assert_eq!((card.hold_secs, card.minutes), (10, 120));
    assert!(tick_on(&mut log, 9000, &upcoming("Standup", 7231, "10:00"), &day(10)).is_none());
}

fn event(title: &str, start_s: i64, end_s: i64) -> CalendarEvent {
    CalendarEvent {
        all_day: false,
        title: title.to_string(),
        participants: Vec::new(),
        start_us: start_s * 1_000_000,
        end_us: end_s * 1_000_000,
    }
}

const NOW: i64 = 1_786_280_400;

#[test]
fn back_to_back_meetings_are_both_announced() {
    let events = vec![event("A", NOW - 1740, NOW + 60), event("B", NOW + 60, NOW + 1860)];
    let clocks = vec![Some("09:00".to_string()), Some("09:30".to_string())];
    let mut log = ReminderLog { last_fired: Some("A@2026-08-10 09:00".to_string()) };
    let now = NOW * 1_000_000;
    let card = tick_at(&mut log, 1, true, now, &events, &clocks, &day(10)).unwrap();
    assert_eq!((card.hold_secs, card.title.as_str(), card.minutes), (0, "B", 1));
    assert_eq!(log.last_fired.as_deref(), Some("B@2026-08-10 09:30"));
    assert!(tick_at(&mut log, 1, true, now, &events, &clocks, &day(10)).is_none());
    assert!(tick_at(&mut log, 1, false, now, &events, &clocks, &day(11)).is_none());
    let mut log = ReminderLog::new();
    assert_eq!(tick(&mut log, 1, true, now, &events).unwrap().title, "B");
}

#[test]
fn a_tick_now_takes_the_date_of_the_machine() {
    let mut log = ReminderLog::new();
    let now = NOW * 1_000_000;
    assert!(tick(&mut log, 1, true, now, &Vec::new()).is_none());
    let events = vec![event(" Standup ", NOW + 60, NOW + 960)];
    assert!(tick(&mut log, 1, false, now, &events).is_none());
    assert!(tick(&mut log, 0, true, now, &events).is_none());
    assert_eq!(log.last_fired, None);
    assert!(tick(&mut log, 1, true, now, &events).is_some());
    let key = log.last_fired.clone().unwrap();
    assert!(key.starts_with("Standup@"));
    assert_eq!(key.len(), "Standup@2026-08-10 09:00".len());
}
