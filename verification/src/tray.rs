//! The tray icon, its menu, and the next meeting in the menu bar.

use vstd::prelude::*;
use vstd::string::*;

use crate::calendar::{NextMeeting, UpcomingEvent};
use crate::platform::Platform;
use crate::text::{
    dec, decimal, law_decimal_reads_back, law_trimming_the_end_takes_white_space, number_written,
    row_of_digits, same_text, trim, trim_end, trim_end_spec, trim_spec, white_space,
};

verus! {

/// How often the menu bar label is refreshed, in seconds.
pub const MEETING_TICK_SECS: u64 = 30;

/// How long a title can get before it starts pushing the clock off the screen.
pub const MAX_TITLE_CHARS: usize = 24;

/// From here on a meeting is shown by its start time, in seconds.
pub const COUNTDOWN_SECS: i64 = 3600;

#[derive(Clone, Copy, Debug, PartialEq, Eq, Structural)]
pub enum TrayIconState {
    Idle,
    Recording,
    Transcribing,
}

#[derive(Clone, Copy, Debug, PartialEq, Eq, Structural)]
pub enum AppTheme {
    Dark,
    Light,
    Colored,
}

/// The theme that a window reports.
#[derive(Clone, Copy, Debug, PartialEq, Eq, Structural)]
pub enum WindowTheme {
    Light,
    Dark,
    Other,
}

/// The theme of the app: always colored on Linux, elsewhere that of the main
/// window, and dark where there is none to ask.
pub fn get_current_theme(platform: Platform, window: Option<WindowTheme>) -> (r: AppTheme)
    ensures
        r == if platform == Platform::Linux {
            AppTheme::Colored
        } else if window == Some(WindowTheme::Light) {
            AppTheme::Light
        } else {
            AppTheme::Dark
        },
{
    match platform {
        Platform::Linux => AppTheme::Colored,
        _ => match window {
            Some(WindowTheme::Light) => AppTheme::Light,
            _ => AppTheme::Dark,
        },
    }
}

/// Where the icon for a theme and a state lies among the resources. The dark
/// theme has light icons and the light theme dark ones.
pub open spec fn icon_path(theme: AppTheme, state: TrayIconState) -> Seq<char> {
    match (theme, state) {
        (AppTheme::Dark, TrayIconState::Idle) => "resources/tray_idle.png"@,
        (AppTheme::Dark, TrayIconState::Recording) => "resources/tray_recording.png"@,
        (AppTheme::Dark, TrayIconState::Transcribing) => "resources/tray_transcribing.png"@,
        (AppTheme::Light, TrayIconState::Idle) => "resources/tray_idle_dark.png"@,
        (AppTheme::Light, TrayIconState::Recording) => "resources/tray_recording_dark.png"@,
        (AppTheme::Light, TrayIconState::Transcribing) => "resources/tray_transcribing_dark.png"@,
        (AppTheme::Colored, TrayIconState::Idle) => "resources/handy.png"@,
        (AppTheme::Colored, TrayIconState::Recording) => "resources/recording.png"@,
        (AppTheme::Colored, TrayIconState::Transcribing) => "resources/transcribing.png"@,
    }
}

/// The icon for a theme and a state.
pub fn get_icon_path(theme: AppTheme, state: TrayIconState) -> (r: &'static str)
    ensures
        r@ == icon_path(theme, state),
{
    match (theme, state) {
        (AppTheme::Dark, TrayIconState::Idle) => "resources/tray_idle.png",
        (AppTheme::Dark, TrayIconState::Recording) => "resources/tray_recording.png",
        (AppTheme::Dark, TrayIconState::Transcribing) => "resources/tray_transcribing.png",
        (AppTheme::Light, TrayIconState::Idle) => "resources/tray_idle_dark.png",
        (AppTheme::Light, TrayIconState::Recording) => "resources/tray_recording_dark.png",
        (AppTheme::Light, TrayIconState::Transcribing) => "resources/tray_transcribing_dark.png",
        (AppTheme::Colored, TrayIconState::Idle) => "resources/handy.png",
        (AppTheme::Colored, TrayIconState::Recording) => "resources/recording.png",
        (AppTheme::Colored, TrayIconState::Transcribing) => "resources/transcribing.png",
    }
}

/// `Lark v1.2.3`, marked in a development build.
pub open spec fn version_text(version: Seq<char>, dev: bool) -> Seq<char> {
    "Lark v"@ + version + if dev {
        " (Dev)"@
    } else {
        ""@
    }
}

/// The name and version of the app.
pub fn version_label(version: &str, dev: bool) -> (r: String)
    ensures
        r@ == version_text(version@, dev),
{
    let mut out = "Lark v".to_owned();
    out.append(version);
    out.append(
        if dev {
            " (Dev)"
        } else {
            ""
        },
    );
    out
}

/// What the tray icon says when pointed at.
pub fn tray_tooltip(version: &str, dev: bool) -> (r: String)
    ensures
        r@ == version_text(version@, dev),
{
    version_label(version, dev)
}

/// A title cut to the menu bar's budget, on a character boundary, with an
/// ellipsis where it was cut.
pub open spec fn short_title(title: Seq<char>) -> Seq<char> {
    let t = trim_spec(title);
    if t.len() <= MAX_TITLE_CHARS {
        t
    } else {
        trim_end_spec(t.take(MAX_TITLE_CHARS - 1)) + "…"@
    }
}

/// Cuts a title to the menu bar's budget.
pub fn truncate_title(title: &str) -> (r: String)
    ensures
        r@ == short_title(title@),
{
    let t = trim(title);
    if t.unicode_len() <= MAX_TITLE_CHARS {
        return t.to_owned();
    }
    let kept = t.substring_char(0, MAX_TITLE_CHARS - 1);
    let mut out = trim_end(kept).to_owned();
    assert(kept@ == t@.take(MAX_TITLE_CHARS - 1));
    out.append("…");
    out
}

/// Whole minutes until `secs` are over, rounded up.
pub open spec fn minutes_left(secs: int) -> nat {
    ((secs + 59) / 60) as nat
}

/// The label of a meeting: `now` once it is under way, a countdown within the
/// hour, its start time beyond.
pub open spec fn meeting_label(e: UpcomingEvent) -> Seq<char> {
    let title = short_title(e.title@);
    if e.starts_in_secs <= 0 {
        "now · "@ + title
    } else if e.starts_in_secs < COUNTDOWN_SECS {
        "in "@ + dec(minutes_left(e.starts_in_secs as int)) + "m · "@ + title
    } else {
        e.start_hm@ + " "@ + title
    }
}

/// The label of a meeting in the menu bar.
pub fn format_meeting_label(event: &UpcomingEvent) -> (r: String)
    ensures
        r@ == meeting_label(*event),
{
    let title = truncate_title(event.title.as_str());
    if event.starts_in_secs <= 0 {
        let mut out = "now · ".to_owned();
        out.append(title.as_str());
        out
    } else if event.starts_in_secs < COUNTDOWN_SECS {
        let minutes: i64 = (event.starts_in_secs + 59) / 60;
        let mut out = "in ".to_owned();
        let number = decimal(minutes as u64);
        out.append(number.as_str());
        out.append("m · ");
        out.append(title.as_str());
        out
    } else {
        let mut out = event.start_hm.clone();
        out.append(" ");
        out.append(title.as_str());
        out
    }
}

/// What the menu bar says of the day: nothing with the setting off or without
/// calendar access, neither of which is a claim about the day.
pub open spec fn day_label(show: bool, next: NextMeeting, done: Seq<char>) -> Seq<char> {
    if !show {
        Seq::empty()
    } else {
        match next {
            NextMeeting::Upcoming(event) => meeting_label(event),
            NextMeeting::Clear => done,
            NextMeeting::Unavailable => Seq::empty(),
        }
    }
}

/// The next meeting, rendered for the menu bar. `done` is what a clear day says.
pub fn next_meeting_label(show: bool, next: &NextMeeting, done: &str) -> (r: String)
    ensures
        r@ == day_label(show, *next, done@),
{
    if !show {
        return String::new();
    }
    match next {
        NextMeeting::Upcoming(event) => format_meeting_label(event),
        NextMeeting::Clear => done.to_owned(),
        NextMeeting::Unavailable => String::new(),
    }
}

/// A shortened title stays within the budget.
pub proof fn law_title_fits_budget(title: Seq<char>)
    ensures
        short_title(title).len() <= MAX_TITLE_CHARS,
        trim_spec(title).len() <= MAX_TITLE_CHARS ==> short_title(title) == trim_spec(title),
{
    let t = trim_spec(title);
    if t.len() > MAX_TITLE_CHARS {
        reveal_strlit("…");
        lemma_trim_end_shortens(t.take(MAX_TITLE_CHARS - 1));
    }
}

proof fn lemma_trim_end_shortens(s: Seq<char>)
    ensures
        trim_end_spec(s).len() <= s.len(),
    decreases s.len(),
{
    if s.len() > 0 {
        lemma_trim_end_shortens(s.drop_last());
    }
}

/// The countdown never understates the time left, and overstates it by less than
/// a minute.
pub proof fn law_countdown_rounds_up(secs: int)
    requires
        secs > 0,
    ensures
        secs <= 60 * minutes_left(secs) < secs + 60,
        minutes_left(secs) >= 1,
{
}

/// While the setting is on and the calendar readable, the menu bar is never
/// blank.
pub proof fn law_readable_day_is_not_blank(next: NextMeeting, done: Seq<char>)
    requires
        !(next is Unavailable),
        done.len() > 0,
    ensures
        day_label(true, next, done).len() > 0,
{
    if let NextMeeting::Upcoming(e) = next {
        reveal_strlit("now · ");
        reveal_strlit("in ");
        reveal_strlit(" ");
    }
}

/// The label that was last pushed to the menu bar.
pub struct LabelCache {
    pub last: Option<String>,
}

/// What to do with the menu bar's title.
pub enum TitleChange {
    /// Nothing has changed.
    Keep,
    /// Show no title.
    Remove,
    /// Show this title.
    Show(String),
}

/// Notes the current label, and says what the menu bar has to change: nothing
/// when the label is the one that was pushed last.
pub fn refresh_next_meeting(cache: &mut LabelCache, label: String) -> (r: TitleChange)
    ensures
        final(cache).last is Some && final(cache).last->0@ == label@,
        match r {
            TitleChange::Keep => old(cache).last is Some && old(cache).last->0@ == label@,
            TitleChange::Remove => label@.len() == 0 && !(old(cache).last is Some && old(
                cache,
            ).last->0@ == label@),
            TitleChange::Show(s) => s@ == label@ && label@.len() > 0 && !(old(cache).last is Some
                && old(cache).last->0@ == label@),
        },
{
    let same = match &cache.last {
        Some(last) => same_text(last.as_str(), label.as_str()),
        None => false,
    };
    if same {
        return TitleChange::Keep;
    }
    cache.last = Some(label.clone());
    if label.as_str().is_empty() {
        TitleChange::Remove
    } else {
        TitleChange::Show(label)
    }
}

/// A finished dictation in the history.
#[derive(Debug, Clone)]
pub struct HistoryEntry {
    pub id: i64,
    pub file_name: String,
    pub timestamp: i64,
    pub saved: bool,
    pub title: String,
    pub transcription_text: String,
    pub post_processed_text: Option<String>,
    pub post_process_prompt: Option<String>,
    pub post_process_requested: bool,
}

/// The text of a dictation: post-processed where it was, else as transcribed.
pub open spec fn entry_text(e: HistoryEntry) -> Seq<char> {
    match e.post_processed_text {
        Some(t) => t@,
        None => e.transcription_text@,
    }
}

/// The text of a dictation.
pub fn last_transcript_text(entry: &HistoryEntry) -> (r: &str)
    ensures
        r@ == entry_text(*entry),
{
    match &entry.post_processed_text {
        Some(t) => t.as_str(),
        None => entry.transcription_text.as_str(),
    }
}

/// The text to put on the clipboard: that of the latest dictation, unless there
/// is none or it is blank.
pub fn copy_last_transcript(latest: Option<&HistoryEntry>) -> (r: Option<&str>)
    ensures
        match latest {
            Some(e) if trim_spec(entry_text(*e)).len() > 0 => r is Some && r->0@ == entry_text(*e),
            _ => r is None,
        },
{
    match latest {
        None => None,
        Some(entry) => {
            let text = last_transcript_text(entry);
            if trim(text).is_empty() {
                None
            } else {
                Some(text)
            }
        },
    }
}

/// A title of no more than 24 characters is shown whole; of a longer one the first 23, but
/// for white space at the cut, and an ellipsis.
pub proof fn law_titles_are_cut_at_the_budget(title: Seq<char>) -> (blank: Seq<char>)
    ensures
        trim_spec(title).len() <= 24 ==> short_title(title) == trim_spec(title),
        trim_spec(title).len() > 24 ==> {
            let kept = short_title(title).drop_last();
            &&& short_title(title).len() > 0 && short_title(title).last() == '…'
            &&& trim_spec(title).take(23) == kept + blank
            &&& forall|i: int| 0 <= i < blank.len() ==> white_space(#[trigger] blank[i])
            &&& kept.len() > 0 ==> !white_space(kept.last())
        },
{
    reveal_strlit("…");
    let t = trim_spec(title);
    let blank = law_trimming_the_end_takes_white_space(t.take(23));
    if t.len() > 24 {
        assert(short_title(title).drop_last() == trim_end_spec(t.take(23)));
    }
    blank
}

/// The label of a meeting tells how long it is to its start: that it is on, the minutes
/// left within the hour, rounded up, or its start time before that; and then its title.
pub proof fn law_label_tells_the_time_left(e: UpcomingEvent) -> (minutes: Seq<char>)
    ensures
        e.starts_in_secs <= 0 ==> meeting_label(e) == "now · "@ + short_title(e.title@),
        0 < e.starts_in_secs < 3600 ==> meeting_label(e) == "in "@ + minutes + "m · "@ + short_title(
            e.title@,
        ) && row_of_digits(minutes) && e.starts_in_secs <= 60 * number_written(minutes)
            < e.starts_in_secs + 60,
        e.starts_in_secs >= 3600 ==> meeting_label(e) == e.start_hm@ + " "@ + short_title(e.title@),
{
    if e.starts_in_secs > 0 {
        law_decimal_reads_back(minutes_left(e.starts_in_secs as int));
    }
    dec(minutes_left(e.starts_in_secs as int))
}

/// What the menu bar says of the day is the next meeting, or that there is none left; with
/// the setting off, or without access, it says nothing.
pub proof fn law_menu_bar_tells_the_day(next: NextMeeting, done: Seq<char>, e: UpcomingEvent)
    ensures
        day_label(false, next, done).len() == 0,
        day_label(true, NextMeeting::Clear, done) == done,
        day_label(true, NextMeeting::Unavailable, done).len() == 0,
        day_label(true, NextMeeting::Upcoming(e), done) == meeting_label(e),
{
}

/// The version is told behind the name, and a development build is marked as one.
pub proof fn law_version_is_told(version: Seq<char>)
    ensures
        version_text(version, false) == "Lark v"@ + version,
        version_text(version, true) == "Lark v"@ + version + " (Dev)"@,
{
    reveal_strlit("");
    assert("Lark v"@ + version + ""@ == "Lark v"@ + version);
}

/// Each theme and state has its own icon.
pub proof fn law_icons_tell_theme_and_state()
    ensures
        icon_path(AppTheme::Dark, TrayIconState::Idle) == "resources/tray_idle.png"@,
        icon_path(AppTheme::Dark, TrayIconState::Recording) == "resources/tray_recording.png"@,
        icon_path(AppTheme::Dark, TrayIconState::Transcribing)
            == "resources/tray_transcribing.png"@,
        icon_path(AppTheme::Light, TrayIconState::Idle) == "resources/tray_idle_dark.png"@,
        icon_path(AppTheme::Light, TrayIconState::Recording)
            == "resources/tray_recording_dark.png"@,
        icon_path(AppTheme::Light, TrayIconState::Transcribing)
            == "resources/tray_transcribing_dark.png"@,
        icon_path(AppTheme::Colored, TrayIconState::Idle) == "resources/handy.png"@,
        icon_path(AppTheme::Colored, TrayIconState::Recording) == "resources/recording.png"@,
        icon_path(AppTheme::Colored, TrayIconState::Transcribing) == "resources/transcribing.png"@,
{
}

/// The text of a dictation is the post-processed one wherever there is one.
pub proof fn law_processed_text_comes_first(e: HistoryEntry)
    ensures
        e.post_processed_text matches Some(t) ==> entry_text(e) == t@,
        e.post_processed_text is None ==> entry_text(e) == e.transcription_text@,
{
}

} // verus!
