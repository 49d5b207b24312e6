use lark::cli::CliArgs;
use lark::overlay::{
    copy_ready_shown, creates_overlay, env_flag_enabled, get_monitor_with_cursor, is_mouse_within_monitor,
    layer_anchors, overlay_shown, placement, uses_layer_shell, DragTracker, Monitor,
    OverlayPosition, Placement,
};
use lark::platform::Platform;
use lark::paste_guard::{
    clear_pending, frontmost_app_pid, remember_target, set_pending, take_pending, target_changed,
    PasteGuard,
};
use lark::text::{
    ascii_lower, byte_prefix, contains, cut_to_bytes, decimal, decimal_pad2, ends_with, is_control,
    is_white_space, join, lines, parse_u64, position_of, starts_with, strip_suffix, trim, trim_end,
    trim_end_matches, words,
};

#[test]
fn characters_are_classed_as_the_standard_library_classes_them() {
    for c in '\0'..=char::MAX {
        assert_eq!(is_white_space(c), c.is_whitespace(), "{c:?}");
        assert_eq!(is_control(c), c.is_control(), "{c:?}");
    }
}

#[test]
fn texts_are_cut_as_the_standard_library_cuts_them() {
    for s in ["", " ", " a b ", "\u{3000}é\tb\u{85}", "a", "a\n\nb\r\n", "\r\n", "a\r", "x\u{200b} y"] {
        assert_eq!(trim(s), s.trim());
        assert_eq!(trim_end(s), s.trim_end());
        assert_eq!(words(s), s.split_whitespace().map(|w| w.to_string()).collect::<Vec<_>>());
        assert_eq!(lines(s), s.lines().map(|w| w.to_string()).collect::<Vec<_>>());
        assert_eq!(ascii_lower(s), s.to_ascii_lowercase());
        for n in 0..8 {
            assert_eq!(byte_prefix(s, n), s.get(..n));
        }
        for p in ["", "a", " ", "b ", "é\t", "ab"] {
            assert_eq!(starts_with(s, p), s.starts_with(p));
            assert_eq!(ends_with(s, p), s.ends_with(p));
            assert_eq!(contains(s, p), s.contains(p));
            assert_eq!(strip_suffix(s, p), s.strip_suffix(p));
        }
    }
    assert_eq!(trim_end_matches("a.md.md", ".md"), "a");
    assert_eq!(trim_end_matches(".md", ".md"), "");
    assert_eq!(trim_end_matches("md", ".md"), "md");
    assert_eq!(strip_suffix("a.md.md", ".md"), Some("a.md"));
    assert_eq!(strip_suffix(".md", ".md"), Some(""));
    assert_eq!(strip_suffix("md", ".md"), None);
    assert_eq!(join(&vec!["a".to_string(), "b".to_string()], ", "), "a, b");
    assert_eq!(cut_to_bytes("aéb", 3), ("aé", true));
    assert_eq!(cut_to_bytes("aéb", 4), ("aéb", false));
    assert_eq!(cut_to_bytes("aéb", 2), ("a", true));
    assert_eq!(cut_to_bytes("日本", 5), ("日", true));
    assert_eq!(cut_to_bytes("𝄞x", 3), ("", true));
    assert_eq!(cut_to_bytes("a", 0), ("", true));
    assert_eq!(cut_to_bytes("", 0), ("", false));
}

#[test]
fn numbers_are_written_and_read() {
    for n in [0, 7, 10, 99, 100, 12345, u64::MAX] {
        assert_eq!(decimal(n), n.to_string());
        assert_eq!(decimal_pad2(n), format!("{n:02}"));
    }
    for s in ["0", "007", "+5", "-5", "", "+", " 5", "5 ", "1e3", "18446744073709551615", "18446744073709551616", "٣"] {
        assert_eq!(parse_u64(s), s.parse::<u64>().ok(), "{s:?}");
    }
}

#[test]
fn the_first_of_equal_texts_is_found() {
    let list = vec!["x".to_string(), "y".to_string(), "x".to_string()];
    assert_eq!(position_of(&list, "x"), Some(0));
    assert_eq!(position_of(&list, "z"), None);
}

#[test]
fn a_paste_goes_ahead_unless_the_app_is_known_to_have_changed() {
    let mut g = PasteGuard::new();
    assert!(!target_changed(&g, Some(7)));
    remember_target(&mut g, Some(7));
    assert!(!target_changed(&g, Some(7)));
    assert!(target_changed(&g, Some(8)));
    assert!(!target_changed(&g, None));
    assert!(!target_changed(&g, Some(0)));
    remember_target(&mut g, None);
    assert!(!target_changed(&g, Some(8)));
    assert_eq!(frontmost_app_pid(Some(-1)), None);
    assert_eq!(frontmost_app_pid(Some(5)), Some(5));
}

#[test]
fn withheld_text_is_taken_once() {
    let mut g = PasteGuard::new();
    assert_eq!(take_pending(&mut g), None);
    set_pending(&mut g, "a".to_string());
    set_pending(&mut g, "b".to_string());
    assert_eq!(take_pending(&mut g).as_deref(), Some("b"));
    assert_eq!(take_pending(&mut g), None);
    set_pending(&mut g, "c".to_string());
    clear_pending(&mut g);
    assert_eq!(take_pending(&mut g), None);
}

#[test]
fn nothing_is_asked_for_on_a_bare_command_line() {
    let args = CliArgs::default();
    assert!(!args.start_hidden && !args.no_tray && !args.toggle_meeting && !args.debug);
    assert_eq!(args.set_meeting_mic, None);
    assert_eq!(args.meeting_rewind, None);
}

#[test]
fn the_overlay_follows_the_settings() {
    assert!(overlay_shown(OverlayPosition::Top));
    assert!(!overlay_shown(OverlayPosition::Off));
    assert_eq!(placement(true, OverlayPosition::Top), Placement::Dragged);
    assert_eq!(placement(false, OverlayPosition::Top), Placement::BelowTop);
    assert_eq!(placement(false, OverlayPosition::Bottom), Placement::AboveBottom);
    assert_eq!(placement(false, OverlayPosition::Off), Placement::AboveBottom);
    assert_eq!(layer_anchors(OverlayPosition::Top), (true, false));
    assert_eq!(layer_anchors(OverlayPosition::Off), (false, true));
    assert!(copy_ready_shown(OverlayPosition::Top, true, true, true));
    assert!(!copy_ready_shown(OverlayPosition::Off, true, true, true));
    assert!(!copy_ready_shown(OverlayPosition::Top, false, true, true));
    assert!(!copy_ready_shown(OverlayPosition::Top, true, false, true));
    assert!(!copy_ready_shown(OverlayPosition::Top, true, true, false));
    assert!(creates_overlay(Platform::Linux, false));
    assert!(!creates_overlay(Platform::MacOs, false));
    assert!(creates_overlay(Platform::Windows, true));
    assert!(uses_layer_shell(false, true, true));
    assert!(!uses_layer_shell(true, true, true));
}

#[test]
fn an_environment_flag_can_say_no() {
    for no in ["", "0", "false", "no", "off", " OFF ", "False", "\tNo"] {
        assert!(!env_flag_enabled(Some(no)), "{no:?}");
    }
    for yes in ["1", "true", "yes", "on", "anything", "00"] {
        assert!(env_flag_enabled(Some(yes)), "{yes:?}");
    }
    assert!(!env_flag_enabled(None));
}

#[test]
fn the_mouse_is_on_the_first_monitor_that_holds_it() {
    let left = Monitor { x: -1920, y: 0, width: 1920, height: 1080 };
    let right = Monitor { x: 0, y: 0, width: 1920, height: 1080 };
    assert!(is_mouse_within_monitor((-1920, 0), &left));
    assert!(!is_mouse_within_monitor((0, 0), &left));
    assert!(is_mouse_within_monitor((1919, 1079), &right));
    assert!(!is_mouse_within_monitor((1919, 1080), &right));
    let both = vec![left, right, right];
    assert_eq!(get_monitor_with_cursor(Some((5, 5)), &both), Some(1));
    assert_eq!(get_monitor_with_cursor(Some((5, -5)), &both), None);
    assert_eq!(get_monitor_with_cursor(None, &both), None);
}

#[test]
fn only_the_last_drag_is_saved() {
    let mut t = DragTracker::new();
    assert_eq!(t.moved(0), Some(1));
    t.moving(1_000);
    assert_eq!(t.moved(1_599), None);
    assert_eq!(t.moved(1_600), Some(2));
    assert_eq!(t.moved(1_700), Some(3));
    assert!(!t.settled(2));
    assert!(t.settled(3));
}

#[test]
fn auto_on_the_command_line_clears_the_pick() {
    let mut args = CliArgs::default();
    assert_eq!(args.meeting_mic(), None);
    args.set_meeting_mic = Some("Jabra".to_string());
    assert_eq!(args.meeting_mic().as_deref(), Some("Jabra"));
    args.set_meeting_mic = Some("auto".to_string());
    assert_eq!(args.meeting_mic().as_deref(), Some(""));
}
