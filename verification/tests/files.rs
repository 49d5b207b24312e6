use lark::browser::{
    is_inside, list_meeting_notes, meeting_picker_resize, meeting_set_mic, open_meeting_note,
    path_components, FoundNote,
};
use lark::folders::{extension_of, is_expired_wav, join_path, meetings_dir_for, stem_of};
use lark::maintenance::{
    available_kilobytes, free_bytes, history_row, low_disk_warning, recovery_cutoff,
    recovery_queue, save_action, FoundFile, NextRecording, RecoveryRun, SaveAction,
    LOW_DISK_BYTES,
};
use lark::platform::Platform;
use lark::system_tap::readable_samples;
use lark::tray::HistoryEntry;
use std::path::Path;

#[test]
fn meetings_are_kept_where_the_settings_say() {
    let ok = |s: &str| Ok(s.to_string());
    assert_eq!(meetings_dir_for(" /data/meetings ", None), ok("/data/meetings"));
    assert_eq!(meetings_dir_for("~/Notes", Some("/Users/k")), ok("/Users/k/Notes"));
    assert_eq!(meetings_dir_for("~/", Some("/Users/k")), ok("/Users/k/"));
    assert_eq!(meetings_dir_for("~", Some("/Users/k")), ok("~"));
    assert_eq!(
        meetings_dir_for("  ", Some("/Users/k")),
        ok("/Users/k/Documents/Lark Meetings")
    );
    assert_eq!(meetings_dir_for("", None), Err("HOME not set".to_string()));
    assert_eq!(meetings_dir_for("~/Notes", None), Err("HOME not set".to_string()));
}

#[test]
fn paths_join_as_the_standard_library_joins_them() {
    for base in ["", "/", "/a", "/a/", "a/b"] {
        for rest in ["", "b", "b/c", "/b", "."] {
            assert_eq!(
                join_path(base, rest),
                Path::new(base).join(rest).to_str().unwrap(),
                "{base:?} {rest:?}"
            );
        }
    }
}

#[test]
fn names_split_as_the_standard_library_splits_them() {
    for name in ["a.md", "a.b.md", ".md", "..md", "a.", "a", "a..b", ".a.b", "é.wav"] {
        let p = Path::new(name);
        assert_eq!(extension_of(name), p.extension().map(|e| e.to_str().unwrap()), "{name:?}");
        assert_eq!(stem_of(name), p.file_stem().unwrap().to_str().unwrap(), "{name:?}");
    }
}

#[test]
fn components_are_those_of_the_standard_library() {
    for path in ["", "/", "//", "/a", "/a/", "/a//b", "/a/./b", "./a", "a/.", "a/../b", "/a/..", "/a/../b", "/a/b/../../c", "/a/b/../c", "/a/b/../../../c", "/a/b/c/../../d", "../a", "/a/..b", "/.", "/./a", "a", "."] {
        let wanted: Vec<String> = Path::new(path)
            .components()
            .map(|c| c.as_os_str().to_str().unwrap().to_string())
            .collect();
        assert_eq!(path_components(path), wanted, "{path:?}");
        for dir in ["", "/", "/a", "/a/b", "./a", "a", "/A"] {
            let wanted = match Path::new(path).strip_prefix(dir) {
                Ok(rest) => {
                    let mut depth = 0;
                    rest.components().all(|c| {
                        depth += if c.as_os_str() == ".." { -1 } else { 1 };
                        depth >= 0
                    })
                }
                Err(_) => false,
            };
            assert_eq!(is_inside(path, dir), wanted, "{path:?} {dir:?}");
        }
    }
}

#[test]
fn only_files_of_the_folder_open() {
    assert_eq!(open_meeting_note("/m", "/m/a.md"), Ok(()));
    assert_eq!(open_meeting_note("/m/", "/m/a.md"), Ok(()));
    assert_eq!(open_meeting_note("/m", "/mm/a.md"), Err("not a meeting note".to_string()));
    assert_eq!(open_meeting_note("/m", "m/a.md"), Err("not a meeting note".to_string()));
    assert_eq!(open_meeting_note("/m", "/m/../secret.txt"), Err("not a meeting note".to_string()));
    assert_eq!(open_meeting_note("/m", "/m/x/../../secret"), Err("not a meeting note".to_string()));
    assert_eq!(open_meeting_note("/m", "/m/..a.md"), Ok(()));
    // A detour inside the folder is no way out of it.
    assert_eq!(open_meeting_note("/m", "/m/sub/../x.md"), Ok(()));
    assert_eq!(open_meeting_note("/m", "/m/a/b/../../x.md"), Ok(()));
    // Out and in again is out.
    assert_eq!(open_meeting_note("/m", "/m/../m/x.md"), Err("not a meeting note".to_string()));
    // The folder itself may be named by a way that goes up.
    assert_eq!(open_meeting_note("/k/../m", "/k/../m/a.md"), Ok(()));
}

#[test]
fn audio_expires_after_a_day_and_transcripts_never() {
    let day: i128 = 24 * 3600 * 1_000_000_000;
    assert!(is_expired_wav("a.WAV", Some(0), day + 1));
    assert!(!is_expired_wav("a.wav", Some(0), day));
    assert!(!is_expired_wav("a.wav", None, day * 9));
    assert!(!is_expired_wav("a.md", Some(0), day * 9));
    assert!(!is_expired_wav(".wav", Some(0), day * 9));
    assert!(!is_expired_wav("a.partial.jsonl", Some(0), day * 9));
}

fn found(name: &str, modified_ms: Option<u64>, content: Option<&str>) -> FoundNote {
    FoundNote {
        name: name.to_string(),
        path: format!("/m/{name}"),
        modified_ms,
        content: content.map(|c| c.to_string()),
    }
}

#[test]
fn notes_are_listed_the_latest_first() {
    let long = "x".repeat(200_001);
    let files = vec![
        found("old.md", None, None),
        found("sound.wav", Some(9), Some("no")),
        found("a.b.md", Some(5), Some("five")),
        found("new.md", Some(7), Some(&long)),
        found("also.md", Some(5), Some("same")),
        found("upper.MD", Some(8), Some("no")),
    ];
    let notes = list_meeting_notes(Some(&files));
    let titles: Vec<&str> = notes.iter().map(|n| n.title.as_str()).collect();
    assert_eq!(titles, vec!["new", "a.b", "also", "old"]);
    assert_eq!(notes[0].content.len(), 200_000);
    assert_eq!((notes[1].path.as_str(), notes[1].modified_ms), ("/m/a.b.md", 5));
    assert_eq!((notes[3].content.as_str(), notes[3].modified_ms), ("", 0));
    assert!(list_meeting_notes(None).is_empty());
}

#[test]
fn a_long_note_is_cut_before_a_character_that_does_not_fit() {
    let long = format!("{}é{}", "x".repeat(199_999), "y".repeat(10));
    let files = vec![found("a.md", Some(2), Some(&long)), found("b.md", Some(1), Some("b"))];
    let notes = list_meeting_notes(Some(&files));
    assert_eq!(notes.len(), 2);
    assert_eq!(notes[0].content, "x".repeat(199_999));
    assert_eq!(notes[1].content, "b");
}

#[test]
fn the_picker_is_for_one_system() {
    assert_eq!(meeting_set_mic(Platform::MacOs, "Jabra".to_string()), Ok(Some("Jabra".to_string())));
    assert_eq!(meeting_set_mic(Platform::MacOs, String::new()), Ok(None));
    assert_eq!(
        meeting_set_mic(Platform::Linux, "Jabra".to_string()),
        Err("meeting mode is macOS-only".to_string())
    );
    assert_eq!(meeting_picker_resize(Platform::MacOs, 3), Ok(3));
    assert_eq!(
        meeting_picker_resize(Platform::Windows, 3),
        Err("meeting mode is macOS-only".to_string())
    );
}

#[test]
fn free_space_is_read_from_the_second_line() {
    let out = "Filesystem 1024-blocks Used Available Capacity Mounted on\n/dev/disk1 100 40 2048 40% /\n";
    assert_eq!(available_kilobytes(out), Some(2048));
    assert_eq!(free_bytes(out), Some(2048 * 1024));
    assert_eq!(free_bytes("header\n"), None);
    assert_eq!(free_bytes("header\na b c\n"), None);
    assert_eq!(free_bytes("header\na b c -5\n"), None);
    assert_eq!(free_bytes("header\na b c +5"), Some(5 * 1024));
    assert_eq!(free_bytes("header\na b c 99999999999999999999\n"), None);
    assert_eq!(low_disk_warning(LOW_DISK_BYTES), None);
    assert_eq!(low_disk_warning(LOW_DISK_BYTES - 1), Some(2047));
    assert_eq!(low_disk_warning(0), Some(0));
}

fn entry(id: i64, file_name: &str, text: &str) -> HistoryEntry {
    HistoryEntry {
        id,
        file_name: file_name.to_string(),
        timestamp: 0,
        saved: false,
        title: "Recording".to_string(),
        transcription_text: text.to_string(),
        post_processed_text: None,
        post_process_prompt: None,
        post_process_requested: false,
    }
}

#[test]
fn the_history_knows_a_file_by_its_first_entry() {
    let entries = vec![
        entry(1, "", "text"),
        entry(2, "a.wav", " "),
        entry(3, "a.wav", "text"),
        entry(4, "b.wav", ""),
    ];
    assert_eq!(history_row(&entries, "a.wav"), Some((2, true)));
    assert_eq!(history_row(&entries, "b.wav"), Some((4, false)));
    assert_eq!(history_row(&entries, "c.wav"), None);
    assert_eq!(history_row(&entries, ""), None);
}

fn file(name: &str, modified_ns: Option<i128>) -> FoundFile {
    FoundFile { name: name.to_string(), modified_ns }
}

#[test]
fn interrupted_recordings_are_recovered_the_newest_first() {
    let entries = vec![entry(1, "done.wav", "text"), entry(2, "empty.wav", "")];
    let files = vec![
        file("stale.wav", Some(9)),
        file("first.wav", Some(10)),
        file("done.wav", Some(30)),
        file("empty.wav", Some(20)),
        file("newest.wav", Some(40)),
        file("also.wav", Some(20)),
        file("upper.WAV", Some(50)),
        file("unknown.wav", None),
    ];
    assert_eq!(
        recovery_queue(&entries, &files, Some(10)),
        vec!["newest.wav", "empty.wav", "also.wav", "first.wav"]
    );
    assert_eq!(recovery_queue(&entries, &files, None).len(), 5);
    assert_eq!(recovery_cutoff(0), Some(-172_800_000_000_000));
    assert_eq!(recovery_cutoff(i128::MIN), None);
}

#[test]
fn a_recovery_ends_after_ten_or_on_a_full_disk() {
    let queue: Vec<String> = (0..12).map(|n| format!("{n}.wav")).collect();
    let mut run = RecoveryRun::new(queue.clone());
    for n in 0..10 {
        match run.next_recording(Some(LOW_DISK_BYTES)) {
            NextRecording::Try(name) => assert_eq!(name, format!("{n}.wav")),
            _ => panic!("stopped early"),
        }
        run.count();
    }
    assert!(matches!(run.next_recording(None), NextRecording::Done));
    let mut run = RecoveryRun::new(queue);
    assert!(matches!(run.next_recording(None), NextRecording::Try(_)));
    match run.next_recording(Some(LOW_DISK_BYTES - 1)) {
        NextRecording::LowDisk(name) => assert_eq!(name, "1.wav"),
        _ => panic!("went on"),
    }
    assert!(matches!(run.next_recording(None), NextRecording::Done));
    assert!(matches!(RecoveryRun::new(Vec::new()).next_recording(None), NextRecording::Done));
}

#[test]
fn recovered_text_fills_an_entry_or_makes_one() {
    assert_eq!(save_action(Some((7, false)), "text"), SaveAction::Update(7));
    assert_eq!(save_action(None, "text"), SaveAction::Create);
    assert_eq!(save_action(None, " \n"), SaveAction::Skip);
}

#[test]
fn a_buffer_is_read_where_it_is_aligned() {
    assert_eq!(readable_samples(17, false, 8, 4, 4), Some(4));
    assert_eq!(readable_samples(3, false, 8, 4, 4), None);
    assert_eq!(readable_samples(16, false, 6, 4, 4), None);
    assert_eq!(readable_samples(16, true, 0, 4, 4), None);
    assert_eq!(readable_samples(0, false, 8, 4, 4), None);
}
