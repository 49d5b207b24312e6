use lark::calendar::CalendarContext;
use lark::clock::CivilTime;
use lark::document::{
    calendar_title, duration_secs, keeps_waiting, meeting_files, mic_active_secs, render_document,
    transcription_jobs, Track, TranscriptLog,
};
use lark::notes::{meeting_notes, notes_reply, NotesSettings};
use lark::sidecar::{
    append_partial, read_record, recover_orphaned_meetings, recover_records, recovered_transcript,
    sidecar_stem, Recovery,
};
use lark::transcript::{push_line, render_transcript, sanitise_for_filename};
use lark::yaml::yaml_scalar;

#[test]
fn a_title_is_made_fit_for_a_file_name() {
    assert_eq!(sanitise_for_filename("Q3: plan / review?"), "Q3 plan review");
    assert_eq!(sanitise_for_filename("a\u{7}b\tc\nd"), "a b c d");
    assert_eq!(sanitise_for_filename("...hidden..."), "hidden");
    assert_eq!(sanitise_for_filename("///"), "");
    assert_eq!(sanitise_for_filename(&"é".repeat(80)), "é".repeat(60));
    let cut = format!("{} {}", "a".repeat(59), "b".repeat(10));
    assert_eq!(sanitise_for_filename(&cut), "a".repeat(59));
    // Dots and white space come off together, and again after the cut.
    assert_eq!(sanitise_for_filename(". .x"), "x");
    assert_eq!(sanitise_for_filename(". .foo . ."), "foo");
    assert_eq!(sanitise_for_filename(". . ."), "");
    assert_eq!(sanitise_for_filename("v1.2 notes"), "v1.2 notes");
    let cut = format!("{}.. {}", "a".repeat(58), "b".repeat(10));
    assert_eq!(sanitise_for_filename(&cut), "a".repeat(58));
}

#[test]
fn a_scalar_is_quoted_only_where_it_must_be() {
    assert_eq!(yaml_scalar("Weekly sync"), "Weekly sync");
    assert_eq!(yaml_scalar(""), "''");
    assert_eq!(yaml_scalar("it's: fine"), "'it''s: fine'");
    assert_eq!(yaml_scalar("it's"), "it's");
    for v in ["- a", "? a", ": a", "&a", "*a", "!a", "|a", ">a", "'a", "\"a", "%a", "@a", "`a", "[a", "{a", "#a", "a #b", "a:", " a", "a "] {
        assert_eq!(yaml_scalar(v), format!("'{}'", v.replace('\'', "''")));
    }
}

#[test]
fn what_a_reader_takes_for_something_else_is_quoted() {
    for v in [
        ",a", "]a", "}a", "a:\tb", "a\t#b", "a\nb", "a\r\nb", "a\u{2028}b", "~", "null", "NULL",
        "true", "False", "yes", "No", "on", "OFF", "y", "N", "=", "<<", ".inf", "+.INF", ".nan",
        "0", "12", "007", "+7", "1_000", "3.14", "3.", ".5", "1e3", "1.5e-3", "0x1F", "0o17",
        "0b11", "1:1", "9:30", "190:20:30.15", "2026-08-01", "2026-8-1 9:30:00",
        "2026-08-01T09:30:00Z", "2026-08-01t09:30:00.25+02:00", "2026-08-01 09:30:00 -5",
    ] {
        assert_eq!(yaml_scalar(v), format!("'{v}'"));
    }
    for v in [
        "nullable", "Null and void", "truth", "Yes please", "12 monkeys", "1-1", "3.1.4", "1e", "e3",
        ".", "..", "+", "1:75", "1:1 Ann", "0xg", "0x", "0b12", "x12", "2026-08", "2026-08-01 0930",
        "2026-8-1", "2026-08-01 09:30", "2026-08-01T09:30:00X", "a,b", "a]", "a#b", "a:b", "10%",
        ".infinite", "+a", "nan",
    ] {
        assert_eq!(yaml_scalar(v), v);
    }
}

#[test]
fn a_meeting_called_null_has_a_title() {
    let c = context(Some("null"), &["12", "No", "Ann"]);
    let doc = render_document(&started(), Some(&c), 61, 3, &Ok(None), "BODY");
    assert!(doc.contains("title: 'null'\nattendees:\n  - '12'\n  - 'No'\n  - Ann\n"));
}

#[test]
fn lines_carry_their_minute_and_second() {
    assert_eq!(
        render_transcript(&[]),
        "_No speech detected on either track._\n"
    );
    let lines = [(0, "Kole", "Hi".to_string()), (16_000 * 187 + 5, "Them", "Hello".to_string())];
    assert_eq!(
        render_transcript(&lines),
        "**[00:00] Kole:** Hi\n\n**[03:07] Them:** Hello\n\n"
    );
    let mut out = "x".to_string();
    push_line(&mut out, 16_000 * 60 * 100, "Kole", "late");
    assert_eq!(out, "x**[100:00] Kole:** late\n\n");
}

#[test]
fn a_sidecar_line_is_one_json_object() {
    assert_eq!(
        append_partial(480, "Kole", "Hi \"there\"\\"),
        "{\"speaker\":\"Kole\",\"start\":480,\"text\":\"Hi \\\"there\\\"\\\\\"}\n"
    );
    assert_eq!(
        append_partial(0, "T", "\u{8}\t\n\u{c}\r\u{1}\u{1f}\u{7f}é/"),
        "{\"speaker\":\"T\",\"start\":0,\"text\":\"\\b\\t\\n\\f\\r\\u0001\\u001f\u{7f}é/\"}\n"
    );
}

#[test]
fn everything_appended_comes_back() {
    let mut raw = String::new();
    let texts = ["plain", "two\nlines\r", "\"quoted\" \\ and \u{1} é 🎉", ""];
    for (i, t) in texts.iter().enumerate() {
        raw.push_str(&append_partial(i * 7, "Them", t));
    }
    let whole = recover_records(&raw);
    assert_eq!(whole.len(), 4);
    for (i, t) in texts.iter().enumerate() {
        assert_eq!(whole[i], ((i * 7) as u64, "Them".to_string(), t.to_string()));
    }
    // A run that died in the middle of a line leaves what came before.
    let torn = format!("{raw}{{\"speaker\":\"Th");
    assert_eq!(recover_records(&torn), whole);
}

#[test]
fn lines_that_hold_no_record_are_passed_over() {
    let raw = "\n[1]\nnull\n{\"start\":-1,\"speaker\":\"a\",\"text\":\"b\"}\n{\"start\":1.5,\"speaker\":\"a\",\"text\":\"b\"}\n{\"start\":1,\"speaker\":2,\"text\":\"b\"}\n{\"start\":1,\"speaker\":\"a\"}\nnot json\n{\"text\":\"t\",\"more\":0,\"speaker\":\"s\",\"start\":18446744073709551615}\r\n";
    assert_eq!(
        recover_records(raw),
        vec![(u64::MAX, "s".to_string(), "t".to_string())]
    );
    // The last of two members of a name counts.
    assert_eq!(
        recover_records("{\"start\":1,\"start\":2,\"speaker\":\"a\",\"text\":\"b\"}"),
        vec![(2, "a".to_string(), "b".to_string())]
    );
}

#[test]
fn a_record_needs_all_three_members() {
    let text = |s: &str| Some(s.to_string());
    let full = vec![
        ("speaker".to_string(), None, text("a")),
        ("start".to_string(), Some(5), None),
        ("text".to_string(), None, text("b")),
    ];
    assert_eq!(read_record(&full), Some((5, "a".to_string(), "b".to_string())));
    assert_eq!(read_record(&full[..2].to_vec()), None);
    assert_eq!(read_record(&Vec::new()), None);
}

#[test]
fn an_orphaned_sidecar_becomes_a_transcript() {
    let raw = [
        append_partial(32_000, "Them", "second"),
        append_partial(0, "Kole", "first"),
        append_partial(32_000, "Kole", "third"),
    ]
    .concat();
    let wanted = "# Meeting — 2026-08-01 0930 Standup\n\n- **Recovered** from a run that ended before the transcript was written. No AI notes, and the mic-bleed dedup pass did not run.\n\n## Transcript\n\n**[00:00] Kole:** first\n\n**[00:02] Them:** second\n\n**[00:02] Kole:** third\n\n";
    match recover_orphaned_meetings("2026-08-01 0930 Standup", false, Some(&raw)) {
        Recovery::Write(text) => assert_eq!(text, wanted),
        _ => panic!("not recovered"),
    }
    assert!(matches!(recover_orphaned_meetings("s", true, Some(&raw)), Recovery::Sweep));
    assert!(matches!(recover_orphaned_meetings("s", true, None), Recovery::Sweep));
    assert!(matches!(recover_orphaned_meetings("s", false, None), Recovery::Leave));
    assert!(matches!(recover_orphaned_meetings("s", false, Some("{}\n")), Recovery::Leave));
    assert_eq!(recovered_transcript("s", Vec::new()), None);
}

#[test]
fn only_sidecars_have_a_stem() {
    assert_eq!(sidecar_stem("a.partial.jsonl").as_deref(), Some("a"));
    assert_eq!(
        sidecar_stem("a.partial.jsonl.partial.jsonl").as_deref(),
        Some("a.partial.jsonl")
    );
    assert_eq!(sidecar_stem(".partial.jsonl").as_deref(), Some(""));
    assert_eq!(sidecar_stem("a.jsonl"), None);
    assert_eq!(sidecar_stem("a.partial.jsonl.md"), None);
}

fn started() -> CivilTime {
    CivilTime { year: 2026, month: 8, day: 1, hour: 9, minute: 30 }
}

fn context(title: Option<&str>, attendees: &[&str]) -> CalendarContext {
    CalendarContext {
        title: title.map(|t| t.to_string()),
        attendees: attendees.iter().map(|a| a.to_string()).collect(),
        start_epoch: None,
        end_epoch: None,
    }
}

#[test]
fn files_are_named_by_start_and_title() {
    let f = meeting_files(&started(), Some(&context(Some("Wilow: standup"), &[])), 1, 0);
    assert_eq!(f.stem, "2026-08-01 0930 Wilow standup");
    assert_eq!(f.mic.as_deref(), Some("2026-08-01 0930 Wilow standup (mic).wav"));
    assert_eq!(f.system, None);
    assert_eq!(f.sidecar, "2026-08-01 0930 Wilow standup.partial.jsonl");
    assert_eq!(f.transcript, "2026-08-01 0930 Wilow standup.md");
    let f = meeting_files(&started(), Some(&context(Some("///"), &[])), 0, 1);
    assert_eq!(f.stem, "2026-08-01 0930 Meeting");
    assert_eq!(f.mic, None);
    assert_eq!(f.system.as_deref(), Some("2026-08-01 0930 Meeting (system).wav"));
    assert_eq!(meeting_files(&started(), None, 0, 0).stem, "2026-08-01 0930 Meeting");
    assert_eq!(calendar_title(Some(&context(None, &[]))), None);
}

#[test]
fn the_microphone_is_transcribed_first() {
    assert_eq!(
        transcription_jobs(&[(0, 5), (7, 9)], &[(1, 2)]),
        vec![(Track::Microphone, 0, 5), (Track::Microphone, 7, 9), (Track::System, 1, 2)]
    );
    assert_eq!(mic_active_secs(&[(0, 31_999), (40_000, 88_000)]), 4);
    assert_eq!(mic_active_secs(&[]), 0);
    assert_eq!(duration_secs(15_999, 32_000), 2);
    assert_eq!(duration_secs(48_000, 32_000), 3);
    assert!(keeps_waiting(false, 119_999));
    assert!(!keeps_waiting(false, 120_000));
    assert!(!keeps_waiting(true, 0));
}

#[test]
fn what_is_heard_is_logged_sorted_and_freed_of_bleed() {
    let mut log = TranscriptLog::new();
    let mut sidecar = String::new();
    for (start, track, text) in [
        (64_000, Track::Microphone, " my own words "),
        (16_000, Track::Microphone, "we ship on Friday"),
        (32_000, Track::Microphone, "  "),
        (0, Track::System, "We ship on Friday"),
        (64_000, Track::System, "quite another thing"),
    ] {
        match log.heard(start, track, text) {
            Some(line) => sidecar.push_str(&line),
            None => assert_eq!(text.trim(), ""),
        }
    }
    assert_eq!(recover_records(&sidecar).len(), 4);
    assert_eq!(
        log.finish(),
        vec![
            (0, "Them", "We ship on Friday".to_string()),
            (64_000, "Kole", "my own words".to_string()),
            (64_000, "Them", "quite another thing".to_string()),
        ]
    );
}

#[test]
fn a_document_without_a_calendar_match() {
    let doc = render_document(&started(), None, 59, 0, &Ok(None), "BODY\n");
    assert_eq!(
        doc,
        "---\ndate: 2026-08-01\nstart: 09:30\nduration_minutes: 0\ntitle: null\nattendees: []\ncalendar_matched: false\nsource: lark\n---\n\n# Meeting — Saturday 1 August 2026, 09:30\n\n- Duration: 0 min 59 sec\n- Transcribed locally by Lark\n\n## Transcript\n\nBODY\n"
    );
}

#[test]
fn a_document_with_everything() {
    let c = context(Some("Plan: B"), &["Ann", "- Bob"]);
    let notes = Ok(Some("  ### Summary\nfine\n ".to_string()));
    let doc = render_document(&started(), Some(&c), 3661, 2, &notes, "BODY");
    assert_eq!(
        doc,
        "---\ndate: 2026-08-01\nstart: 09:30\nduration_minutes: 61\ntitle: 'Plan: B'\nattendees:\n  - Ann\n  - '- Bob'\ncalendar_matched: true\nsource: lark\n---\n\n# Plan: B — Saturday 1 August 2026, 09:30\n\n- Duration: 61 min 1 sec\n- Transcribed locally by Lark\n- Note: the mic track was almost entirely silent — only the system side was captured. (AirPods handshake? Check the log.)\n\n## Notes\n\n### Summary\nfine\n\n## Transcript\n\nBODY"
    );
}

#[test]
fn a_failed_summary_keeps_the_transcript() {
    let c = context(None, &[]);
    let failed = Err("provider x not found".to_string());
    let doc = render_document(&started(), Some(&c), 61, 3, &failed, "BODY");
    assert!(doc.ends_with(
        "- Transcribed locally by Lark\n\n## Notes\n\n_Not generated: provider x not found_\n\n## Transcript\n\nBODY"
    ));
    assert!(doc.contains("title: null\nattendees: []\ncalendar_matched: true\n"));
}

fn notes_settings() -> NotesSettings {
    NotesSettings {
        enabled: true,
        provider_id: "deepseek".to_string(),
        providers: vec!["openai".to_string(), "deepseek".to_string()],
        api_keys: vec![("deepseek".to_string(), "key".to_string())],
        models: vec![("openai".to_string(), "a".to_string()), ("deepseek".to_string(), "b".to_string())],
        max_chars: 10,
    }
}

#[test]
fn notes_are_asked_of_the_chosen_provider() {
    let q = meeting_notes(&notes_settings(), "short").ok().unwrap().unwrap();
    assert_eq!((q.provider, q.api_key.as_str(), q.model.as_str()), (1, "key", "b"));
    assert!(q.prompt.starts_with("You are summarising a meeting transcript. \"Kole\" is the user; \"Them\" is everyone else on the call — the transcript cannot tell those people apart, so never invent names for them.\n\nWrite, in this order and nothing else:\n1. A `### Summary` section"));
    assert!(q.prompt.ends_with("no jargon, no preamble.\n\nTranscript:\nshort"));
    let q = meeting_notes(&notes_settings(), "0123456789x").ok().unwrap().unwrap();
    assert!(q.prompt.ends_with(
        "no preamble.\n\nNote: this transcript was truncated — say so in one line at the end.\n\nTranscript:\n0123456789"
    ));
    let q = meeting_notes(&notes_settings(), "01234567é").ok().unwrap().unwrap();
    assert!(q.prompt.ends_with("preamble.\n\nTranscript:\n01234567é"));
}

#[test]
fn a_transcript_is_not_cut_inside_a_character() {
    let q = meeting_notes(&notes_settings(), "012345678é").ok().unwrap().unwrap();
    assert!(q.prompt.ends_with(
        "no preamble.\n\nNote: this transcript was truncated — say so in one line at the end.\n\nTranscript:\n012345678"
    ));
    let q = meeting_notes(&notes_settings(), "01234567éx").ok().unwrap().unwrap();
    assert!(q.prompt.ends_with("at the end.\n\nTranscript:\n01234567é"));
}

#[test]
fn notes_are_skipped_or_refused() {
    let mut s = notes_settings();
    s.enabled = false;
    assert!(matches!(meeting_notes(&s, "x"), Ok(None)));
    assert!(matches!(meeting_notes(&notes_settings(), " \n"), Ok(None)));
    let mut s = notes_settings();
    s.api_keys.clear();
    assert!(matches!(meeting_notes(&s, "x"), Ok(None)));
    let mut s = notes_settings();
    s.models[1].1 = String::new();
    assert!(matches!(meeting_notes(&s, "x"), Ok(None)));
    let mut s = notes_settings();
    s.provider_id = "nobody".to_string();
    assert_eq!(meeting_notes(&s, "x").err().as_deref(), Some("provider nobody not found"));
}

#[test]
fn a_reply_is_trimmed_and_a_blank_one_dropped() {
    assert_eq!(notes_reply(Ok(Some(" a \n".to_string()))), Ok(Some("a".to_string())));
    assert_eq!(notes_reply(Ok(Some(" \n".to_string()))), Ok(None));
    assert_eq!(notes_reply(Ok(None)), Ok(None));
    assert_eq!(notes_reply(Err("e".to_string())), Err("e".to_string()));
}
