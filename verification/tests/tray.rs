use lark::calendar::{NextMeeting, UpcomingEvent};
use lark::meeting::MeetingStatus;
use lark::menu::{update_tray_menu, MenuEntry, MenuInput};
use lark::platform::Platform;
use lark::tray::{
    copy_last_transcript, format_meeting_label, get_current_theme, get_icon_path,
    last_transcript_text, next_meeting_label, refresh_next_meeting, tray_tooltip, truncate_title,
    version_label, AppTheme, HistoryEntry, LabelCache, TitleChange, TrayIconState, WindowTheme,
};
use lark::tray_i18n::{get_tray_translations, Catalogue, Translation, TrayStrings};

fn build_entry(transcription: &str, post_processed: Option<&str>) -> HistoryEntry {
    HistoryEntry {
        id: 1,
        file_name: "handy-1.wav".to_string(),
        timestamp: 0,
        saved: false,
        title: "Recording".to_string(),
        transcription_text: transcription.to_string(),
        post_processed_text: post_processed.map(|text| text.to_string()),
        post_process_prompt: None,
        post_process_requested: false,
    }
}

#[test]
fn uses_post_processed_text_when_available() {
    let entry = build_entry("raw", Some("processed"));
    assert_eq!(last_transcript_text(&entry), "processed");
}

#[test]
fn falls_back_to_raw_transcription() {
    let entry = build_entry("raw", None);
    assert_eq!(last_transcript_text(&entry), "raw");
}

#[test]
fn copies_only_text_that_is_not_blank() {
    assert_eq!(copy_last_transcript(None), None);
    assert_eq!(copy_last_transcript(Some(&build_entry(" raw ", None))), Some(" raw "));
    assert_eq!(copy_last_transcript(Some(&build_entry("raw", Some(" \n")))), None);
}

fn event(starts_in_secs: i64, title: &str) -> UpcomingEvent {
    UpcomingEvent {
        title: title.to_string(),
        starts_in_secs,
        start_hm: "14:30".to_string(),
    }
}

#[test]
fn counts_down_within_the_hour() {
    assert_eq!(
        format_meeting_label(&event(8 * 60, "Elizabeth 1:1")),
        "in 8m · Elizabeth 1:1"
    );
}

#[test]
fn rounds_the_countdown_up() {
    assert_eq!(
        format_meeting_label(&event(90, "Standup")),
        "in 2m · Standup"
    );
    assert_eq!(
        format_meeting_label(&event(1, "Standup")),
        "in 1m · Standup"
    );
}

#[test]
fn shows_the_clock_time_beyond_an_hour() {
    assert_eq!(
        format_meeting_label(&event(60 * 60, "Elizabeth 1:1")),
        "14:30 Elizabeth 1:1"
    );
}

#[test]
fn the_last_second_before_the_hour_still_counts_down() {
    assert_eq!(format_meeting_label(&event(3599, "Standup")), "in 60m · Standup");
}

#[test]
fn marks_a_meeting_already_under_way() {
    assert_eq!(format_meeting_label(&event(0, "Standup")), "now · Standup");
    assert_eq!(
        format_meeting_label(&event(-120, "Standup")),
        "now · Standup"
    );
}

#[test]
fn truncates_a_long_title_without_splitting_a_character() {
    let label = format_meeting_label(&event(300, "Quarterly planning and roadmap review"));
    assert_eq!(label, "in 5m · Quarterly planning and…");
    assert_eq!(label.chars().filter(|c| *c == '…').count(), 1);
}

#[test]
fn multibyte_titles_do_not_panic() {
    let title = "Réunion générale avec l'équipe entière";
    let label = format_meeting_label(&event(300, title));
    assert!(label.starts_with("in 5m · Réunion"));
    assert!(label.ends_with('…'));
}

#[test]
fn short_titles_are_left_alone() {
    assert_eq!(
        format_meeting_label(&event(300, "  Standup  ")),
        "in 5m · Standup"
    );
}

#[test]
fn a_title_at_the_budget_is_not_cut() {
    assert_eq!(truncate_title("abcdefghijklmnopqrstuvwx"), "abcdefghijklmnopqrstuvwx");
    assert_eq!(truncate_title("abcdefghijklmnopqrstuvwxy"), "abcdefghijklmnopqrstuvw…");
}

#[test]
fn the_menu_bar_is_blank_only_when_nothing_can_be_claimed() {
    let next = NextMeeting::Upcoming(event(60, "Standup"));
    assert_eq!(next_meeting_label(true, &next, "Meetings done"), "in 1m · Standup");
    assert_eq!(next_meeting_label(true, &NextMeeting::Clear, "Meetings done"), "Meetings done");
    assert_eq!(next_meeting_label(true, &NextMeeting::Unavailable, "Meetings done"), "");
    assert_eq!(next_meeting_label(false, &NextMeeting::Clear, "Meetings done"), "");
}

#[test]
fn a_label_is_pushed_only_when_it_changes() {
    let mut cache = LabelCache { last: None };
    assert!(matches!(refresh_next_meeting(&mut cache, "a".to_string()), TitleChange::Show(s) if s == "a"));
    assert!(matches!(refresh_next_meeting(&mut cache, "a".to_string()), TitleChange::Keep));
    assert!(matches!(refresh_next_meeting(&mut cache, String::new()), TitleChange::Remove));
    assert!(matches!(refresh_next_meeting(&mut cache, String::new()), TitleChange::Keep));
}

#[test]
fn icons_and_themes() {
    assert_eq!(get_icon_path(AppTheme::Dark, TrayIconState::Idle), "resources/tray_idle.png");
    assert_eq!(
        get_icon_path(AppTheme::Light, TrayIconState::Recording),
        "resources/tray_recording_dark.png"
    );
    assert_eq!(
        get_icon_path(AppTheme::Colored, TrayIconState::Transcribing),
        "resources/transcribing.png"
    );
    assert_eq!(get_current_theme(Platform::Linux, Some(WindowTheme::Light)), AppTheme::Colored);
    assert_eq!(get_current_theme(Platform::MacOs, Some(WindowTheme::Light)), AppTheme::Light);
    assert_eq!(get_current_theme(Platform::Windows, Some(WindowTheme::Other)), AppTheme::Dark);
    assert_eq!(get_current_theme(Platform::MacOs, None), AppTheme::Dark);
}

#[test]
fn the_version_is_marked_in_a_development_build() {
    assert_eq!(version_label("1.2.3", false), "Lark v1.2.3");
    assert_eq!(tray_tooltip("1.2.3", true), "Lark v1.2.3 (Dev)");
}

fn english() -> TrayStrings {
    TrayStrings {
        settings: "Settings...".to_string(),
        copy_last_transcript: "Copy Last Transcript".to_string(),
        quit: "Quit".to_string(),
        cancel: "Cancel".to_string(),
        unload_model: "Unload Model".to_string(),
        meeting_start: "Start Meeting Recording".to_string(),
        meeting_stop: "Stop Meeting Recording".to_string(),
        meeting_processing: "Transcribing Meeting...".to_string(),
        meetings_done: "Meetings done".to_string(),
    }
}

fn catalogue() -> Catalogue {
    let spanish = Translation {
        settings: Some("Ajustes...".to_string()),
        copy_last_transcript: Some(String::new()),
        quit: Some("Salir".to_string()),
        cancel: Some("Cancelar".to_string()),
        unload_model: None,
        meeting_start: None,
        meeting_stop: None,
        meeting_processing: None,
        meetings_done: None,
    };
    Catalogue {
        english: english(),
        locales: vec!["es".to_string()],
        translations: vec![spanish],
    }
}

#[test]
fn a_clear_day_says_so_and_is_translated() {
    // The reassurance only works if it is actually present in the strings
    // the tray renders from — an empty one would show as a blank menu bar,
    // which is the state it exists to rule out.
    let strings = get_tray_translations(Some("en-US".to_string()), &catalogue());
    assert_eq!(strings.meetings_done, "Meetings done");
}

#[test]
fn locales_without_the_key_fall_back_to_english() {
    // Spanish has no tray translations for the meeting entries. It must
    // render the English word, never an invisible empty string.
    let es = get_tray_translations(Some("es".to_string()), &catalogue());
    assert_eq!(es.meetings_done, "Meetings done");
    assert!(!es.meeting_start.is_empty());
    assert!(!es.meeting_stop.is_empty());
    assert!(!es.meeting_processing.is_empty());
    // Keys Spanish *does* translate must stay Spanish.
    assert_ne!(es.quit, get_tray_translations(Some("en".to_string()), &catalogue()).quit);
}

#[test]
fn a_region_is_served_by_its_language() {
    assert_eq!(get_tray_translations(Some("es-MX".to_string()), &catalogue()).quit, "Salir");
    assert_eq!(get_tray_translations(Some("es_MX".to_string()), &catalogue()).quit, "Salir");
    assert_eq!(get_tray_translations(Some("eo".to_string()), &catalogue()).quit, "Quit");
    assert_eq!(get_tray_translations(None, &catalogue()).quit, "Quit");
    let es = get_tray_translations(Some("es".to_string()), &catalogue());
    assert_eq!(es.copy_last_transcript, "Copy Last Transcript");
}

fn menu_input(platform: Platform, meeting: MeetingStatus) -> MenuInput {
    MenuInput {
        platform,
        version: "1.2.3".to_string(),
        dev: false,
        meeting,
        model_loaded: true,
    }
}

fn ids(menu: &[MenuEntry]) -> Vec<&'static str> {
    menu.iter()
        .map(|e| match e {
            MenuEntry::Item { id, .. } => *id,
            MenuEntry::Separator => "-",
        })
        .collect()
}

#[test]
fn the_idle_menu_offers_no_model_and_no_update() {
    let menu = update_tray_menu(
        &menu_input(Platform::MacOs, MeetingStatus::Idle),
        TrayIconState::Idle,
        &english(),
    );
    assert_eq!(
        ids(&menu),
        vec![
            "version",
            "-",
            "copy_last_transcript",
            "meeting_toggle",
            "-",
            "unload_model",
            "-",
            "settings",
            "-",
            "quit"
        ]
    );
    match &menu[0] {
        MenuEntry::Item { label, enabled, .. } => {
            assert_eq!((label.as_str(), *enabled), ("Lark v1.2.3", false))
        }
        _ => panic!("no version"),
    }
    match &menu[5] {
        MenuEntry::Item { label, enabled, .. } => {
            assert_eq!((label.as_str(), *enabled), ("Unload Model", true))
        }
        _ => panic!("no way to unload the model"),
    }
    match &menu[7] {
        MenuEntry::Item { accelerator, .. } => assert_eq!(*accelerator, Some("Cmd+,")),
        _ => panic!("no settings"),
    }
}

#[test]
fn the_busy_menu_offers_to_cancel() {
    for state in [TrayIconState::Recording, TrayIconState::Transcribing] {
        let menu = update_tray_menu(
            &menu_input(Platform::Linux, MeetingStatus::Idle),
            state,
            &english(),
        );
        assert_eq!(
            ids(&menu),
            vec![
                "version",
                "-",
                "cancel",
                "-",
                "copy_last_transcript",
                "-",
                "settings",
                "-",
                "quit"
            ]
        );
        match &menu[8] {
            MenuEntry::Item { accelerator, .. } => assert_eq!(*accelerator, Some("Ctrl+Q")),
            _ => panic!("no way out"),
        }
    }
}

#[test]
fn the_meeting_entry_follows_the_recording() {
    for (status, wanted, usable) in [
        (MeetingStatus::Idle, "Start Meeting Recording", true),
        (MeetingStatus::Recording, "Stop Meeting Recording", true),
        (MeetingStatus::Processing, "Transcribing Meeting...", false),
    ] {
        let menu =
            update_tray_menu(&menu_input(Platform::MacOs, status), TrayIconState::Idle, &english());
        match &menu[3] {
            MenuEntry::Item { label, enabled, .. } => {
                assert_eq!((label.as_str(), *enabled), (wanted, usable))
            }
            _ => panic!("no meeting entry"),
        }
    }
}

#[test]
fn a_model_that_is_not_loaded_cannot_be_unloaded() {
    let mut input = menu_input(Platform::MacOs, MeetingStatus::Idle);
    input.model_loaded = false;
    let menu = update_tray_menu(&input, TrayIconState::Idle, &english());
    match &menu[5] {
        MenuEntry::Item { id, enabled, .. } => assert_eq!((*id, *enabled), ("unload_model", false)),
        _ => panic!("no way to unload the model"),
    }
}
