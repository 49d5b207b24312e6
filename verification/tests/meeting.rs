use lark::bleed::{drop_mic_bleed, Entry};
use lark::calendar::CalendarContext;
use lark::clock::CivilTime;
use lark::meeting::{
    local_start, microphone_error, retranscribe_source, retranscription_files, stem_of,
    MeetingManager, MeetingState, MeetingStatus, RetranscribeError, Toggle,
};
use lark::segments::{noise_floor, segment_active_regions, FRAME, SAMPLE_RATE};
use lark::track::{fit_to_length, normalise_track, salvage};
use lark::watchdog::MicStatus;

fn entry(secs: usize, speaker: &'static str, text: &str) -> Entry {
    (secs * SAMPLE_RATE, speaker, text.to_string())
}

/// The speech of a track, with the loudness of its frames measured as the app
/// measures it.
fn regions_of(samples: &[f32]) -> Vec<(usize, usize)> {
    if samples.len() < FRAME {
        return Vec::new();
    }
    let rms: Vec<f32> = samples
        .chunks(FRAME)
        .map(|c| (c.iter().map(|s| s * s).sum::<f32>() / c.len() as f32).sqrt())
        .collect();
    let levels: Vec<u32> = rms.iter().map(|v| v.to_bits()).collect();
    let floor = f32::from_bits(noise_floor(&levels));
    let threshold = (floor * 3.0).max(0.004);
    let active: Vec<bool> = rms.iter().map(|v| *v > threshold).collect();
    segment_active_regions(&active, samples.len())
}

#[test]
fn drops_mic_copy_of_system_line_nearby() {
    let out = drop_mic_bleed(vec![
        entry(20, "Kole", "I think we should move the launch date to July"),
        entry(
            20,
            "Them",
            "I think we should move the launch date to July.",
        ),
    ]);
    assert_eq!(out.len(), 1);
    assert_eq!(out[0].1, "Them");
}

#[test]
fn drops_mic_copy_with_minor_transcription_differences() {
    let out = drop_mic_bleed(vec![
        entry(
            28,
            "Kole",
            "The website copy needs a final review before we ship",
        ),
        entry(
            30,
            "Them",
            "The Win Side copy needs a final review before we shift.",
        ),
    ]);
    assert_eq!(out.len(), 1);
    assert_eq!(out[0].1, "Them");
}

#[test]
fn keeps_genuine_kole_speech() {
    let out = drop_mic_bleed(vec![
        entry(10, "Kole", "Let me check the budget spreadsheet first"),
        entry(12, "Them", "Sure, take your time, no rush at all"),
    ]);
    assert_eq!(out.len(), 2);
}

#[test]
fn keeps_similar_text_far_apart_in_time() {
    let out = drop_mic_bleed(vec![
        entry(5, "Kole", "Let's confirm the budget by Friday"),
        entry(60, "Them", "Let's confirm the budget by Friday."),
    ]);
    assert_eq!(out.len(), 2);
}

#[test]
fn never_drops_system_entries() {
    let out = drop_mic_bleed(vec![
        entry(20, "Them", "The same sentence twice somehow"),
        entry(21, "Them", "The same sentence twice somehow"),
    ]);
    assert_eq!(out.len(), 2);
}

#[test]
fn bleed_ends_at_three_quarters_and_at_eight_seconds() {
    // One edit in four characters is exactly 75 % alike, which is not enough.
    let out = drop_mic_bleed(vec![entry(1, "Kole", "abcd"), entry(1, "Them", "abcx")]);
    assert_eq!(out.len(), 2);
    let out = drop_mic_bleed(vec![entry(1, "Kole", "abcde"), entry(1, "Them", "abcdx")]);
    assert_eq!(out.len(), 1);
    let out = drop_mic_bleed(vec![entry(0, "Kole", "hello"), entry(8, "Them", "hello")]);
    assert_eq!(out.len(), 2);
    let out = drop_mic_bleed(vec![(1, "Kole", "hello".to_string()), entry(8, "Them", "hello")]);
    assert_eq!(out.len(), 1);
    // Two empty lines count as copies.
    let out = drop_mic_bleed(vec![entry(0, "Kole", ""), entry(0, "Them", "")]);
    assert_eq!(out.len(), 1);
    // Alike is counted in characters, not in bytes.
    let out = drop_mic_bleed(vec![entry(0, "Kole", "ééééé"), entry(0, "Them", "éééée")]);
    assert_eq!(out.len(), 1);
}

#[test]
fn dropping_bleed_twice_changes_nothing() {
    let lines = vec![
        entry(1, "Kole", "see you on Monday"),
        entry(2, "Them", "See you on Monday"),
        entry(3, "Kole", "good bye then"),
    ];
    let once = drop_mic_bleed(lines);
    assert_eq!(once.len(), 2);
    assert_eq!(drop_mic_bleed(once.clone()), once);
}

#[test]
fn segments_split_on_silence_and_respect_minimums() {
    let mut samples = vec![0.0f32; 16 * SAMPLE_RATE];
    // 2s of "speech" at t=3s and t=10s, separated by >1s silence
    for region in [(3, 5), (10, 12)] {
        for s in &mut samples[region.0 * SAMPLE_RATE..region.1 * SAMPLE_RATE] {
            *s = 0.3;
        }
    }
    let regions = regions_of(&samples);
    assert_eq!(regions.len(), 2);
    // padded starts land just before the speech
    assert!(regions[0].0 < 3 * SAMPLE_RATE);
    assert!(regions[1].0 < 10 * SAMPLE_RATE && regions[1].0 > 8 * SAMPLE_RATE);
}

#[test]
fn segments_are_padded_by_ten_frames_and_cut_at_thirty_seconds() {
    let mut active = vec![false; 100];
    for a in &mut active[20..40] {
        *a = true;
    }
    let r = segment_active_regions(&active, 100 * FRAME);
    assert_eq!(r, vec![(10 * FRAME, 50 * FRAME)]);
    let all = vec![true; 2000];
    let r = segment_active_regions(&all, 2000 * FRAME);
    assert_eq!(r, vec![(0, 480_000), (480_000, 960_000)]);
}

#[test]
fn a_blip_is_no_utterance_and_a_short_pause_no_end() {
    let mut active = vec![false; 200];
    for a in &mut active[50..62] {
        *a = true;
    }
    assert_eq!(segment_active_regions(&active, 200 * FRAME), Vec::new());
    active[62] = true;
    assert_eq!(segment_active_regions(&active, 200 * FRAME), vec![(40 * FRAME, 73 * FRAME)]);
    // 32 silent frames do not end an utterance, 33 do.
    let mut active = vec![true; 100];
    for a in &mut active[30..62] {
        *a = false;
    }
    assert_eq!(segment_active_regions(&active, 100 * FRAME).len(), 1);
    active[62] = false;
    assert_eq!(segment_active_regions(&active, 100 * FRAME).len(), 2);
}

#[test]
fn a_track_shorter_than_a_frame_has_no_speech() {
    assert_eq!(segment_active_regions(&[true], FRAME - 1), Vec::new());
    assert_eq!(segment_active_regions(&[], 0), Vec::new());
}

#[test]
fn the_noise_floor_stands_a_fifth_of_the_way_up() {
    assert_eq!(noise_floor(&[9, 3, 7, 1, 5]), 3);
    assert_eq!(noise_floor(&[4]), 4);
    assert_eq!(noise_floor(&[2, 2, 2, 8, 9, 9, 9, 9, 9, 9]), 2);
    assert_eq!(noise_floor(&[u32::MAX, 0]), 0);
}

#[test]
fn a_track_is_cut_or_filled_up() {
    let mut v = vec![1, 2, 3];
    fit_to_length(&mut v, 2, 0);
    assert_eq!(v, vec![1, 2]);
    fit_to_length(&mut v, 4, 0);
    assert_eq!(v, vec![1, 2, 0, 0]);
    let mut prefix = vec![1];
    salvage(&mut prefix, vec![2, 3], 5, 0);
    assert_eq!(prefix, vec![1, 2, 3, 0, 0]);
}

#[test]
fn a_track_is_fitted_only_where_it_drifted() {
    let mut v = vec![1; 105];
    assert!(!normalise_track(&mut v, 100, 0));
    assert_eq!(v.len(), 105);
    v.push(1);
    assert!(normalise_track(&mut v, 100, 0));
    assert_eq!(v.len(), 100);
    // 523 seconds of samples inside a 310 second recording.
    let mut v = vec![1u8; 523];
    assert!(normalise_track(&mut v, 310, 0));
    assert_eq!(v.len(), 310);
    let mut v: Vec<u8> = Vec::new();
    assert!(!normalise_track(&mut v, 0, 0));
}

fn started() -> CivilTime {
    CivilTime { year: 2026, month: 8, day: 1, hour: 9, minute: 30 }
}

#[test]
fn a_meeting_goes_from_idle_through_recording_and_processing() {
    let mut m: MeetingManager<i32> = MeetingManager::new();
    assert_eq!(m.status(), MeetingStatus::Idle);
    assert_eq!(m.toggle(), Toggle::Start);
    assert!(m.stop_and_process().is_none());
    assert_eq!(m.start(started(), true), Ok(MicStatus { flowing: true, pin_missed: true }));
    assert_eq!(m.status(), MeetingStatus::Recording);
    assert_eq!(m.toggle(), Toggle::Stop);
    assert_eq!(
        m.start(started(), false),
        Err("meeting recording already active".to_string())
    );
    let mut rec = m.stop_and_process().unwrap();
    assert_eq!(rec.started, started());
    assert_eq!(m.status(), MeetingStatus::Processing);
    assert_eq!(m.toggle(), Toggle::Ignore);
    assert!(m.start(started(), false).is_err());
    assert!(m.stop_and_process().is_none());
    assert_eq!(m.status(), MeetingStatus::Processing);
    rec.keep(vec![1, 2], 3, 0);
    assert_eq!(rec.mic_prefix, vec![1, 2, 0]);
    assert_eq!(rec.mic_track(vec![4], 4, 0), (vec![1, 2, 0, 4], false));
    m.finish();
    assert_eq!(m.status(), MeetingStatus::Idle);
    m.begin_processing();
    assert_eq!(m.status(), MeetingStatus::Processing);
}

#[test]
fn only_a_recording_has_a_title() {
    let ctx = CalendarContext { title: Some("Standup".to_string()), ..Default::default() };
    let mut m: MeetingManager<i32> = MeetingManager::new();
    assert_eq!(m.recording_calendar_title(Some(&ctx)), None);
    m.start(started(), false).unwrap();
    assert_eq!(m.recording_calendar_title(Some(&ctx)), Some("Standup".to_string()));
    assert_eq!(m.recording_calendar_title(Some(&CalendarContext::default())), None);
    assert_eq!(m.recording_calendar_title(None), None);
    m.stop_and_process();
    assert_eq!(m.recording_calendar_title(Some(&ctx)), None);
}

#[test]
fn endings_come_off_a_saved_file() {
    assert_eq!(stem_of("2026-08-01 0930 Standup.md"), "2026-08-01 0930 Standup");
    assert_eq!(stem_of("2026-08-01 0930 Standup (mic).wav"), "2026-08-01 0930 Standup");
    assert_eq!(stem_of("2026-08-01 0930 Standup (system).wav"), "2026-08-01 0930 Standup");
    assert_eq!(stem_of("2026-08-01 0930 Standup (mic)"), "2026-08-01 0930 Standup");
    assert_eq!(stem_of("2026-08-01 0930 Standup (system)"), "2026-08-01 0930 Standup");
    assert_eq!(stem_of("2026-08-01 0930 Standup.wav"), "2026-08-01 0930 Standup");
    assert_eq!(stem_of("2026-08-01 0930 Standup"), "2026-08-01 0930 Standup");
    // Other names lose what they end in as often as it stands there.
    assert_eq!(stem_of("x.wav.wav"), "x");
    assert_eq!(stem_of("x (mic).wav.wav"), "x");
    assert_eq!(stem_of("x (mic) (mic)"), "x");
    assert_eq!(stem_of("x (system) (mic)"), "x");
    assert_eq!(stem_of("x.md.wav"), "x.md");
    // A title that ends like a file loses its ending only.
    assert_eq!(stem_of("2026-08-01 0930 notes.md.md"), "2026-08-01 0930 notes.md");
    assert_eq!(stem_of("2026-08-01 0930 a (mic) (mic).wav"), "2026-08-01 0930 a (mic)");
    assert_eq!(stem_of("2026-08-01 0930 a (mic).md"), "2026-08-01 0930 a (mic)");
}

#[test]
fn a_saved_meeting_is_found_by_any_of_its_files() {
    let m: MeetingManager<i32> = MeetingManager::new();
    for name in [
        "2026-08-01 0930 Standup.md",
        "2026-08-01 0930 Standup (mic).wav",
        "2026-08-01 0930 Standup (system).wav",
    ] {
        let (stem, t) =
            retranscribe_source(m.status(), "/x", true, Some(name)).ok().unwrap();
        assert_eq!(stem, "2026-08-01 0930 Standup");
        assert_eq!(t, started());
        match m.retranscribe_from_wavs("/x", true, Some(name)) {
            Ok((s, at)) => assert_eq!((s.as_str(), at), ("2026-08-01 0930 Standup", started())),
            Err(e) => assert!(matches!(e, RetranscribeError::Ambiguous(_))),
        }
    }
}

fn refusal(r: Result<(String, CivilTime), RetranscribeError>) -> String {
    match r {
        Ok(_) => panic!("accepted"),
        Err(e) => e.message(),
    }
}

#[test]
fn a_meeting_that_cannot_be_transcribed_again_says_why() {
    let name = Some("2026-08-01 0930 Standup.md");
    assert_eq!(
        refusal(retranscribe_source(MeetingStatus::Recording, "/x", true, name)),
        "a meeting is already recording or processing"
    );
    assert_eq!(
        refusal(retranscribe_source(MeetingStatus::Processing, "/x", true, name)),
        "a meeting is already recording or processing"
    );
    assert_eq!(
        refusal(retranscribe_source(MeetingStatus::Idle, "/", false, None)),
        "no parent directory for /"
    );
    assert_eq!(
        refusal(retranscribe_source(MeetingStatus::Idle, "/a/..", true, None)),
        "unreadable path /a/.."
    );
    assert_eq!(
        refusal(retranscribe_source(MeetingStatus::Idle, "/x", true, Some("minutes of \"all\" the.md"))),
        "cannot read a start time from \"minutes of \\\"all\\\" the\": input contains invalid characters"
    );
    // Too short to hold a start time: an empty text is read instead.
    assert_eq!(
        refusal(retranscribe_source(MeetingStatus::Idle, "/x", true, Some("2026.md"))),
        "cannot read a start time from \"2026\": premature end of input"
    );
    // The fifteenth byte falls inside a character.
    assert_eq!(
        refusal(retranscribe_source(MeetingStatus::Idle, "/x", true, Some("2026-08-01 093é.md"))),
        "cannot read a start time from \"2026-08-01 093é\": premature end of input"
    );
    assert!(local_start("s", started(), true).is_ok());
    assert_eq!(
        local_start("s", started(), false).err().unwrap().message(),
        "ambiguous local start time in \"s\""
    );
    assert_eq!(
        retranscription_files("s", 0, 0).err().unwrap().message(),
        "no audio tracks found for \"s\""
    );
    assert_eq!(microphone_error("busy"), "failed to open microphone: busy");
}

#[test]
fn a_meeting_is_transcribed_again_in_place() {
    for name in [
        "2026-08-01 0930 Wilow standup.md",
        "2026-08-01 0930 Wilow standup (mic).wav",
        "2026-08-01 0930 Wilow standup (system).wav",
    ] {
        let (stem, _) =
            retranscribe_source(MeetingStatus::Idle, "/x", true, Some(name)).ok().unwrap();
        let files = retranscription_files(&stem, 5, 0).ok().unwrap();
        assert_eq!(files.transcript, "2026-08-01 0930 Wilow standup.md");
        assert_eq!(files.mic.as_deref(), Some("2026-08-01 0930 Wilow standup (mic).wav"));
        assert_eq!(files.system, None);
        assert_eq!(files.sidecar, "2026-08-01 0930 Wilow standup.partial.jsonl");
        assert_eq!(files.stem, "2026-08-01 0930 Wilow standup");
    }
    let files = retranscription_files("s", 0, 1).ok().unwrap();
    assert_eq!((files.mic, files.system.as_deref()), (None, Some("s (system).wav")));
}

#[test]
fn a_picked_microphone_lasts_for_the_recording() {
    let mut m: MeetingManager<i32> = MeetingManager::new();
    m.set_manual_mic(Some("Jabra".to_string()));
    assert_eq!(m.status(), MeetingStatus::Idle);
    m.start(started(), false).unwrap();
    match &m.state {
        MeetingState::Recording(rec) => assert!(rec.manual_mic.is_none() && !rec.repicked),
        _ => panic!("no recording"),
    }
    m.set_manual_mic(Some("Jabra".to_string()));
    match &mut m.state {
        MeetingState::Recording(rec) => {
            assert_eq!(rec.manual_mic.as_deref(), Some("Jabra"));
            assert!(rec.take_repicked());
            assert!(!rec.take_repicked());
            rec.keep(vec![1], 1, 0);
            assert_eq!(rec.manual_mic.as_deref(), Some("Jabra"));
        }
        _ => panic!("no recording"),
    }
    m.set_manual_mic(None);
    let mut rec = m.stop_and_process().unwrap();
    assert!(rec.manual_mic.is_none() && rec.take_repicked());
}
