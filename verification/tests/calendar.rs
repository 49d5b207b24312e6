use lark::calendar::{
    access_answer, access_decision, calendar_card_fields, current_event, has_access, is_declined,
    log_event_count, next_meeting, next_meeting_at, AccessStatus, Ahead, CalendarContext,
    CalendarEvent, EventCountLog, NextMeeting, Participant,
};
use lark::platform::Platform;
use lark::clock::{
    civil_now, format_time_range, local_hm, read_file_stamp, secs_to_midnight,
    secs_until_local_midnight, time_range_text, CivilTime, LocalClock,
};

#[test]
fn formats_a_one_hour_range() {
    // 2026-08-08 13:00:00 UTC and 14:00:00 UTC — assert only that both
    // halves parse and land either side of an en dash; the actual
    // AM/PM text depends on the machine's local timezone, which this
    // test must not assume.
    let start = 1786280400; // 2026-08-08 13:00:00 UTC
    let end = 1786284000; // 2026-08-08 14:00:00 UTC
    let out = format_time_range(start, end).expect("both bounds present");
    let parts: Vec<&str> = out.split(" – ").collect();
    assert_eq!(
        parts.len(),
        2,
        "expected exactly one en-dash-separated range: {out}"
    );
    assert!(parts[0].contains(':') && (parts[0].contains("AM") || parts[0].contains("PM")));
    assert!(parts[1].contains(':') && (parts[1].contains("AM") || parts[1].contains("PM")));
}

#[test]
fn same_instant_still_formats_both_sides() {
    let t = 1786280400;
    assert!(format_time_range(t, t).is_some());
}

#[test]
fn a_range_out_of_reach_is_none() {
    assert_eq!(format_time_range(i64::MAX, 0), None);
    assert_eq!(format_time_range(0, i64::MIN), None);
    assert_eq!(local_hm(i64::MAX), None);
    // The first and the last second of the years that can be held.
    assert!(local_hm(-8_334_601_228_800).is_some());
    assert!(local_hm(-8_334_601_228_801).is_none());
    assert!(local_hm(8_210_266_876_799).is_some());
    assert!(local_hm(8_210_266_876_800).is_none());
}

#[test]
fn a_local_time_has_hours_and_minutes() {
    let hm = local_hm(1786280400).unwrap();
    assert_eq!(hm.len(), 5);
    assert_eq!(&hm[2..3], ":");
}

fn at(year: i32, month: u32, day: u32, hour: u32, minute: u32) -> CivilTime {
    CivilTime { year, month, day, hour, minute }
}

#[test]
fn dates_are_written_in_three_ways() {
    let t = at(2026, 8, 1, 9, 5);
    assert_eq!(t.file_stamp(), "2026-08-01 0905");
    assert_eq!(t.iso_date(), "2026-08-01");
    assert_eq!(t.long_date(), "Saturday 1 August 2026, 09:05");
    assert_eq!(t.clock24(), "09:05");
    assert_eq!(at(2024, 2, 29, 23, 59).long_date(), "Thursday 29 February 2024, 23:59");
    assert_eq!(at(1970, 1, 1, 0, 0).long_date(), "Thursday 1 January 1970, 00:00");
    assert_eq!(at(7, 12, 31, 0, 0).iso_date(), "0007-12-31");
    assert_eq!(at(-44, 3, 15, 0, 0).iso_date(), "-0044-03-15");
    assert_eq!(at(12345, 3, 15, 0, 0).iso_date(), "+12345-03-15");
    assert_eq!(at(0, 1, 1, 0, 0).file_stamp(), "0000-01-01 0000");
}

#[test]
fn every_day_of_four_years_has_its_weekday() {
    let names =
        ["Thursday", "Friday", "Saturday", "Sunday", "Monday", "Tuesday", "Wednesday"];
    let mut n = 0;
    for year in 1970..1974 {
        for month in 1..=12u32 {
            let days = match month {
                2 => if year == 1972 { 29 } else { 28 },
                4 | 6 | 9 | 11 => 30,
                _ => 31,
            };
            for day in 1..=days {
                assert!(at(year, month, day, 0, 0).long_date().starts_with(names[n % 7]));
                n += 1;
            }
        }
    }
}

#[test]
fn clocks_have_twelve_or_twenty_four_hours() {
    let clock = |hour: u32, minute: u32| LocalClock { hour, minute };
    assert_eq!(clock(0, 5).clock12(), "12:05 AM");
    assert_eq!(clock(9, 30).clock12(), "9:30 AM");
    assert_eq!(clock(12, 0).clock12(), "12:00 PM");
    assert_eq!(clock(23, 59).clock12(), "11:59 PM");
    assert_eq!(clock(0, 5).clock24(), "00:05");
    assert_eq!(time_range_text(clock(13, 0), clock(14, 0)), "1:00 PM – 2:00 PM");
}

#[test]
fn a_file_stamp_reads_back() {
    for t in [at(2026, 8, 1, 9, 5), at(0, 1, 1, 0, 0), at(9999, 12, 31, 23, 59), at(2024, 2, 29, 1, 2)] {
        assert_eq!(read_file_stamp(&t.file_stamp()), Ok(t));
    }
    assert!(read_file_stamp("2026-02-30 0905").is_err());
    assert!(read_file_stamp("2026-08-01 2405").is_err());
    assert!(read_file_stamp("2026-08-01 0905 x").is_err());
    assert!(read_file_stamp("").is_err());
}

#[test]
fn the_calendar_looks_ahead_to_midnight() {
    assert_eq!(secs_to_midnight(0), 86_400);
    assert_eq!(secs_to_midnight(86_000), 400);
    assert_eq!(secs_to_midnight(86_340), 60);
    assert_eq!(secs_to_midnight(86_399), 60);
    let left = secs_until_local_midnight();
    assert!(60 <= left && left <= 86_400);
    assert!(civil_now().year >= 2020);
}

fn person(name: &str) -> Participant {
    Participant {
        name: Some(name.to_string()),
        is_current_user: false,
        declined: false,
        is_organiser: false,
    }
}

fn event(title: &str, start_s: i64, end_s: i64, people: &[&str]) -> CalendarEvent {
    CalendarEvent {
        all_day: false,
        title: title.to_string(),
        participants: people.iter().map(|p| person(p)).collect(),
        start_us: start_s * 1_000_000,
        end_us: end_s * 1_000_000,
    }
}

const NOW: i64 = 1_000_000_000;

#[test]
fn a_meeting_under_way_with_people_names_the_recording() {
    let events = vec![
        event("Focus", 900, 1100, &[]),
        event("Next", 1001, 1100, &["A", "B"]),
        event("Call", 900, 1100, &["A", " ", "B"]),
        event("Other call", 900, 1100, &["C", "D"]),
    ];
    let c = current_event(true, NOW, &events).unwrap();
    assert_eq!(c.title.as_deref(), Some("Call"));
    assert_eq!(c.attendees, vec!["A".to_string(), "B".to_string()]);
    assert_eq!((c.start_epoch, c.end_epoch), (Some(900), Some(1100)));
    assert!(!c.is_empty(Platform::MacOs));
    // Elsewhere there is no calendar to know anything.
    assert!(c.is_empty(Platform::Linux) && c.is_empty(Platform::Windows));
    let c = current_event(true, NOW, &events[..2].iter().map(copy).collect()).unwrap();
    assert_eq!(c.title.as_deref(), Some("Focus"));
}

fn copy(e: &CalendarEvent) -> CalendarEvent {
    CalendarEvent {
        all_day: e.all_day,
        title: e.title.clone(),
        participants: e
            .participants
            .iter()
            .map(|p| Participant {
                name: p.name.clone(),
                is_current_user: p.is_current_user,
                declined: p.declined,
                is_organiser: p.is_organiser,
            })
            .collect(),
        start_us: e.start_us,
        end_us: e.end_us,
    }
}

#[test]
fn banners_and_nameless_blocks_name_nothing() {
    let mut banner = event("Holiday", 0, 2000, &["A", "B"]);
    banner.all_day = true;
    assert!(current_event(true, NOW, &vec![banner]).is_none());
    assert!(current_event(true, NOW, &vec![event("  ", 900, 1100, &[" "])]).is_none());
    assert!(current_event(false, NOW, &vec![event("Call", 900, 1100, &["A", "B"])]).is_none());
    let nameless = current_event(true, NOW, &vec![event(" ", 900, 1100, &["A"])]).unwrap();
    assert_eq!(nameless.title, None);
    assert!(CalendarContext::default().is_empty(Platform::MacOs));
    assert!(CalendarContext::default().is_empty(Platform::Linux));
}

#[test]
fn the_soonest_event_still_to_come_is_next() {
    let events = vec![
        event("Done", 100, 999, &[]),
        event(" Later ", 2000, 3000, &[]),
        event("  Standup ", 1090, 1200, &[]),
    ];
    let clocks = vec![None, None, Some("09:05".to_string())];
    match next_meeting_at(true, NOW, &events, &clocks, Ahead::OnOrToCome) {
        NextMeeting::Upcoming(e) => {
            assert_eq!((e.title.as_str(), e.starts_in_secs, e.start_hm.as_str()), ("Standup", 90, "09:05"))
        }
        _ => panic!("nothing next"),
    }
    assert!(matches!(next_meeting(true, NOW, &events), NextMeeting::Upcoming(e) if e.title == "Standup"));
    assert_eq!(next_meeting(true, NOW, &events[..1].iter().map(copy).collect()), NextMeeting::Clear);
    assert_eq!(next_meeting(false, NOW, &events), NextMeeting::Unavailable);
}

#[test]
fn what_is_under_way_counts_only_where_it_is_asked_for() {
    let events = vec![event("On", 500, 1060, &[]), event("Next", 1060, 1200, &[])];
    let clocks = vec![Some("08:55".to_string()), Some("09:05".to_string())];
    let title = |ahead: Ahead| match next_meeting_at(true, NOW, &events, &clocks, ahead) {
        NextMeeting::Upcoming(e) => (e.title, e.starts_in_secs),
        _ => panic!("nothing next"),
    };
    assert_eq!(title(Ahead::OnOrToCome), ("On".to_string(), -500));
    assert_eq!(title(Ahead::ToCome), ("Next".to_string(), 60));
    assert_eq!(
        next_meeting_at(true, 1_060_000_000, &events, &clocks, Ahead::ToCome),
        NextMeeting::Clear
    );
}

#[test]
fn the_organiser_is_named_first() {
    let mut e = event("Call", 900, 1100, &["A", "B", "C"]);
    e.participants[2].is_organiser = true;
    let c = current_event(true, NOW, &vec![copy(&e)]).unwrap();
    assert_eq!(c.attendees, vec!["C".to_string(), "A".to_string(), "B".to_string()]);
    // An organiser without a name is nobody to put first.
    e.participants[2].name = Some(" ".to_string());
    let c = current_event(true, NOW, &vec![e]).unwrap();
    assert_eq!(c.attendees, vec!["A".to_string(), "B".to_string()]);
}

#[test]
fn a_declined_invite_is_not_next() {
    let mut e = event("Call", 1100, 1200, &["A"]);
    assert!(!is_declined(&e));
    e.participants.push(Participant { declined: true, ..person("B") });
    assert!(!is_declined(&e));
    e.participants.push(Participant { is_current_user: true, declined: true, ..person("C") });
    assert!(is_declined(&e));
    assert_eq!(next_meeting(true, NOW, &vec![e]), NextMeeting::Clear);
}

#[test]
fn access_is_read_and_asked_for_only_when_undecided() {
    assert!(has_access(AccessStatus::FullAccess));
    assert!(!has_access(AccessStatus::WriteOnly));
    assert_eq!(access_decision(AccessStatus::FullAccess), Some(true));
    assert_eq!(access_decision(AccessStatus::Denied), Some(false));
    assert_eq!(access_decision(AccessStatus::Restricted), Some(false));
    assert_eq!(access_decision(AccessStatus::NotDetermined), None);
    assert_eq!(access_decision(AccessStatus::WriteOnly), None);
    assert_eq!(access_answer(None, 29_999), None);
    assert_eq!(access_answer(Some(true), 29_999), Some(true));
    assert_eq!(access_answer(Some(true), 30_000), Some(false));
}

#[test]
fn an_event_count_is_logged_when_it_moves() {
    let mut log = EventCountLog { last: None };
    assert!(log_event_count(&mut log, 0));
    assert!(!log_event_count(&mut log, 0));
    assert!(log_event_count(&mut log, 3));
}

#[test]
fn a_card_has_a_title_and_a_whole_range_or_none() {
    assert_eq!(calendar_card_fields(None), (None, None));
    let mut c = CalendarContext {
        title: Some("Call".to_string()),
        attendees: Vec::new(),
        start_epoch: Some(1786280400),
        end_epoch: None,
    };
    assert_eq!(calendar_card_fields(Some(&c)), (Some("Call".to_string()), None));
    c.end_epoch = Some(1786284000);
    let (title, range) = calendar_card_fields(Some(&c));
    assert_eq!(title.as_deref(), Some("Call"));
    assert_eq!(range, format_time_range(1786280400, 1786284000));
}
