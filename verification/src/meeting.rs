//! The life of a meeting recording: idle, recording, processing.

use vstd::prelude::*;
use vstd::string::*;
use vstd::utf8::is_ascii_chars;

use crate::calendar::CalendarContext;
use crate::clock::{
    date_read, file_stamp, is_single_local_time, parts, read_file_stamp, CivilTime, FILE_STAMP,
};
use crate::document::{
    calendar_title, files_of_stem, name_label, name_stem, title_of, track_name, MeetingFiles,
};
use crate::text::{
    byte_prefix, byte_prefix_spec, dec, law_endings_go, lemma_byte_prefix, pad2, pad4, strip_suffix,
    text_view, trim_end_matches, without_end, without_suffix,
};
use crate::track::{drifted, fitted, normalise_track, salvage};
use crate::transcript::{law_label_is_safe, unsafe_in_name};
use crate::watchdog::{MicStatus, MicStream};

verus! {

#[derive(Clone, Copy, Debug, PartialEq, Eq, Structural)]
pub enum MeetingStatus {
    Idle,
    Recording,
    Processing,
}

/// A recording under way, with samples of type `T`.
pub struct Recording<T> {
    /// Samples salvaged across microphone restarts, in step with the wall clock.
    pub mic_prefix: Vec<T>,
    pub mic: MicStream,
    pub started: CivilTime,
    /// The microphone picked by hand for the rest of the recording.
    pub manual_mic: Option<String>,
    /// Whether the watchdog has yet to act on the pick.
    pub repicked: bool,
}

pub enum MeetingState<T> {
    Idle,
    Recording(Recording<T>),
    Processing,
}

pub struct MeetingManager<T> {
    pub state: MeetingState<T>,
}

/// What a toggle does.
#[derive(Clone, Copy, Debug, PartialEq, Eq, Structural)]
pub enum Toggle {
    Start,
    Stop,
    Ignore,
}

impl<T> MeetingState<T> {
    pub open spec fn status(self) -> MeetingStatus {
        match self {
            MeetingState::Idle => MeetingStatus::Idle,
            MeetingState::Recording(_) => MeetingStatus::Recording,
            MeetingState::Processing => MeetingStatus::Processing,
        }
    }
}

impl<T> MeetingManager<T> {
    pub fn new() -> (r: Self)
        ensures
            r.state is Idle,
    {
        MeetingManager { state: MeetingState::Idle }
    }

    pub fn status(&self) -> (r: MeetingStatus)
        ensures
            r == self.state.status(),
    {
        match &self.state {
            MeetingState::Idle => MeetingStatus::Idle,
            MeetingState::Recording(_) => MeetingStatus::Recording,
            MeetingState::Processing => MeetingStatus::Processing,
        }
    }

    /// The title of the calendar match of the recording, for the cards that offer
    /// to stop it. `None` while nothing is recorded, and while or when the
    /// calendar knows no title.
    pub fn recording_calendar_title(&self, calendar: Option<&CalendarContext>) -> (r: Option<String>)
        ensures
            match r {
                Some(t) => self.state is Recording && title_of(calendar) == Some(t@),
                None => !(self.state is Recording) || title_of(calendar) is None,
            },
    {
        match &self.state {
            MeetingState::Recording(_) => match calendar_title(calendar) {
                Some(t) => Some(t.to_owned()),
                None => None,
            },
            _ => None,
        }
    }

    /// What a toggle does now. While a transcription is in progress it is ignored.
    pub fn toggle(&self) -> (r: Toggle)
        ensures
            r == (match self.state.status() {
                MeetingStatus::Idle => Toggle::Start,
                MeetingStatus::Recording => Toggle::Stop,
                MeetingStatus::Processing => Toggle::Ignore,
            }),
    {
        match self.status() {
            MeetingStatus::Idle => Toggle::Start,
            MeetingStatus::Recording => Toggle::Stop,
            MeetingStatus::Processing => Toggle::Ignore,
        }
    }

    /// Begins a recording once its devices are open, and says what the indicator
    /// shows. Only an idle manager can.
    pub fn start(&mut self, started: CivilTime, pin_missed: bool) -> (r: Result<MicStatus, String>)
        ensures
            match r {
                Ok(shown) => {
                    &&& old(self).state is Idle
                    &&& shown == (MicStatus { flowing: true, pin_missed })
                    &&& final(self).state matches MeetingState::Recording(rec)
                    &&& rec.mic_prefix@.len() == 0
                    &&& rec.started == started
                    &&& rec.mic == (MicStream { last_restart_ms: 0, restarts: 0, pin_missed })
                    &&& rec.manual_mic is None && !rec.repicked
                },
                Err(e) => {
                    &&& !(old(self).state is Idle)
                    &&& *final(self) == *old(self)
                    &&& e@ == "meeting recording already active"@
                },
            },
    {
        match &self.state {
            MeetingState::Idle => {},
            _ => {
                return Err("meeting recording already active".to_owned());
            },
        }
        let mic = MicStream::new(pin_missed);
        self.state = MeetingState::Recording(
            Recording { mic_prefix: Vec::new(), mic, started, manual_mic: None, repicked: false },
        );
        Ok(MicStatus { flowing: true, pin_missed })
    }

    /// Takes note of a microphone picked by hand, or of none to go back to automatic. It
    /// holds for the rest of the recording, and the watchdog acts on it at its next
    /// look; without a recording nothing happens.
    pub fn set_manual_mic(&mut self, device: Option<String>)
        ensures
            match old(self).state {
                MeetingState::Recording(rec) => final(self).state matches MeetingState::Recording(
                    now,
                ) && now.manual_mic == device && now.repicked && now.mic_prefix == rec.mic_prefix
                    && now.mic == rec.mic && now.started == rec.started,
                _ => *final(self) == *old(self),
            },
    {
        if let MeetingState::Recording(rec) = &mut self.state {
            rec.manual_mic = device;
            rec.repicked = true;
        }
    }

    /// Ends a recording and hands it over for processing; nothing happens unless
    /// one is under way.
    pub fn stop_and_process(&mut self) -> (r: Option<Recording<T>>)
        ensures
            match r {
                Some(rec) => old(self).state == MeetingState::Recording(rec)
                    && final(self).state is Processing,
                None => !(old(self).state is Recording) && *final(self) == *old(self),
            },
    {
        let mut taken: MeetingState<T> = MeetingState::Processing;
        core::mem::swap(&mut taken, &mut self.state);
        match taken {
            MeetingState::Recording(rec) => Some(rec),
            other => {
                self.state = other;
                None
            },
        }
    }

    /// Processing is over, whatever came of it.
    pub fn finish(&mut self)
        ensures
            final(self).state is Idle,
    {
        self.state = MeetingState::Idle;
    }
}

impl<T: Copy> Recording<T> {
    /// Keeps the samples of a microphone stream that was closed; the gap up to
    /// `expected` samples becomes silence.
    pub fn keep(&mut self, partial: Vec<T>, expected: usize, silence: T)
        ensures
            final(self).mic_prefix@ == fitted(
                old(self).mic_prefix@ + partial@,
                expected as nat,
                silence,
            ),
            final(self).mic == old(self).mic,
            final(self).started == old(self).started,
            final(self).manual_mic == old(self).manual_mic,
            final(self).repicked == old(self).repicked,
    {
        salvage(&mut self.mic_prefix, partial, expected, silence);
    }

    /// Whether a microphone was picked since this was asked last.
    pub fn take_repicked(&mut self) -> (r: bool)
        ensures
            r == old(self).repicked,
            !final(self).repicked,
            final(self).mic_prefix == old(self).mic_prefix,
            final(self).mic == old(self).mic,
            final(self).started == old(self).started,
            final(self).manual_mic == old(self).manual_mic,
    {
        let r = self.repicked;
        self.repicked = false;
        r
    }

    /// The whole microphone track: what was salvaged and what the last stream
    /// held, fitted to the wall clock where it drifted. The flag tells whether it
    /// had.
    pub fn mic_track(self, last: Vec<T>, expected: usize, silence: T) -> (r: (Vec<T>, bool))
        ensures
            r.1 == drifted((self.mic_prefix@ + last@).len() as int, expected as int),
            r.0@ == if r.1 {
                fitted(self.mic_prefix@ + last@, expected as nat, silence)
            } else {
                self.mic_prefix@ + last@
            },
    {
        let mut last = last;
        let mut track = self.mic_prefix;
        track.append(&mut last);
        let far = normalise_track(&mut track, expected, silence);
        (track, far)
    }
}

/// What is said when the microphone did not open.
pub fn microphone_error(e: &str) -> (r: String)
    ensures
        r@ == "failed to open microphone: "@ + e@,
{
    let mut out = "failed to open microphone: ".to_owned();
    out.append(e);
    out
}

/// Why a meeting cannot be transcribed again.
pub enum RetranscribeError {
    /// A meeting is recording or processing.
    Busy,
    /// The path has no parent directory.
    NoParent(String),
    /// The path ends in no readable file name.
    Unreadable(String),
    /// The file name begins with no start time: the stem, and why.
    NoStart(String, String),
    /// The start time stands for no single local time.
    Ambiguous(String),
    /// Neither track holds anything.
    NoTracks(String),
}

/// `s` in quotes, with what cannot be printed escaped, as `{:?}` writes it.
pub uninterp spec fn debug_quoted(s: Seq<char>) -> Seq<char>;

/// `<str as std::fmt::Debug>::fmt`, to a text. Its result is a function of the
/// text.
#[verifier::external_body]
fn quoted(s: &str) -> (r: String)
    ensures
        r@ == debug_quoted(s@),
{
    format!("{s:?}")
}

impl RetranscribeError {
    /// The error in words.
    pub open spec fn message_spec(self) -> Seq<char> {
        match self {
            RetranscribeError::Busy => "a meeting is already recording or processing"@,
            RetranscribeError::NoParent(path) => "no parent directory for "@ + path@,
            RetranscribeError::Unreadable(path) => "unreadable path "@ + path@,
            RetranscribeError::NoStart(stem, why) => "cannot read a start time from "@
                + debug_quoted(stem@) + ": "@ + why@,
            RetranscribeError::Ambiguous(stem) => "ambiguous local start time in "@ + debug_quoted(
                stem@,
            ),
            RetranscribeError::NoTracks(stem) => "no audio tracks found for "@ + debug_quoted(
                stem@,
            ),
        }
    }

    /// The error in words.
    pub fn message(&self) -> (r: String)
        ensures
            r@ == self.message_spec(),
    {
        let mut out = String::new();
        match self {
            RetranscribeError::Busy => {
                out.append("a meeting is already recording or processing");
            },
            RetranscribeError::NoParent(path) => {
                out.append("no parent directory for ");
                out.append(path.as_str());
            },
            RetranscribeError::Unreadable(path) => {
                out.append("unreadable path ");
                out.append(path.as_str());
            },
            RetranscribeError::NoStart(stem, why) => {
                let name = quoted(stem.as_str());
                out.append("cannot read a start time from ");
                out.append(name.as_str());
                out.append(": ");
                out.append(why.as_str());
            },
            RetranscribeError::Ambiguous(stem) => {
                let name = quoted(stem.as_str());
                out.append("ambiguous local start time in ");
                out.append(name.as_str());
            },
            RetranscribeError::NoTracks(stem) => {
                let name = quoted(stem.as_str());
                out.append("no audio tracks found for ");
                out.append(name.as_str());
            },
        }
        assert(out@ =~= self.message_spec());
        out
    }
}

/// The stem of a saved meeting that a file name leads to. The transcript and the tracks
/// lose the ending that they were named by, once; what else a name may end in goes as
/// often as it stands there.
pub open spec fn saved_stem(name: Seq<char>) -> Seq<char> {
    if ".md"@.is_suffix_of(name) {
        without_end(name, ".md"@)
    } else if " (mic).wav"@.is_suffix_of(name) {
        without_end(name, " (mic).wav"@)
    } else if " (system).wav"@.is_suffix_of(name) {
        without_end(name, " (system).wav"@)
    } else {
        without_suffix(without_suffix(without_suffix(name, ".wav"@), " (mic)"@), " (system)"@)
    }
}

/// How many bytes of a stem hold the start time.
pub const STAMP_BYTES: usize = 15;

/// The text at the beginning of a stem that is read as its start time.
pub open spec fn stamp_part(stem: Seq<char>) -> Seq<char> {
    match byte_prefix_spec(stem, STAMP_BYTES as nat) {
        Some(p) => p,
        None => Seq::empty(),
    }
}

/// The stem of a saved meeting that a file name leads to.
pub fn stem_of(name: &str) -> (r: String)
    ensures
        r@ == saved_stem(name@),
{
    if let Some(stem) = strip_suffix(name, ".md") {
        return stem.to_owned();
    }
    if let Some(stem) = strip_suffix(name, " (mic).wav") {
        return stem.to_owned();
    }
    if let Some(stem) = strip_suffix(name, " (system).wav") {
        return stem.to_owned();
    }
    proof {
        reveal_strlit(".wav");
        reveal_strlit(" (mic)");
        reveal_strlit(" (system)");
    }
    let bare = trim_end_matches(name, ".wav");
    let bare = trim_end_matches(bare, " (mic)");
    trim_end_matches(bare, " (system)").to_owned()
}

pub open spec fn is_digit(c: char) -> bool {
    '0' <= c <= '9'
}

/// Whether `p` has the shape `2026-08-01 0930`.
pub open spec fn stamp_shaped(p: Seq<char>) -> bool {
    &&& p.len() == 15
    &&& p[4] == '-' && p[7] == '-' && p[10] == ' '
    &&& forall|i: int|
        0 <= i < 15 && i != 4 && i != 7 && i != 10 ==> is_digit(#[trigger] p[i])
}

proof fn lemma_dec_digits(n: nat)
    ensures
        n < 10 ==> dec(n).len() == 1,
        10 <= n < 100 ==> dec(n).len() == 2,
        100 <= n < 1000 ==> dec(n).len() == 3,
        1000 <= n < 10000 ==> dec(n).len() == 4,
        forall|i: int| 0 <= i < dec(n).len() ==> is_digit(#[trigger] dec(n)[i]),
    decreases n,
{
    if n >= 10 {
        lemma_dec_digits(n / 10);
    }
}

proof fn lemma_pads(a: nat, b: nat)
    requires
        a < 100,
        b < 10000,
    ensures
        pad2(a).len() == 2,
        pad4(b).len() == 4,
        forall|i: int| 0 <= i < 2 ==> is_digit(#[trigger] pad2(a)[i]),
        forall|i: int| 0 <= i < 4 ==> is_digit(#[trigger] pad4(b)[i]),
{
    lemma_dec_digits(a);
    lemma_dec_digits(b);
}

proof fn lemma_stamp_shape(t: CivilTime)
    requires
        t.valid(),
        0 <= t.year <= 9999,
    ensures
        stamp_shaped(file_stamp(t)),
{
    lemma_pads(t.month as nat, t.year as nat);
    lemma_pads(t.day as nat, 0);
    lemma_pads(t.hour as nat, 0);
    lemma_pads(t.minute as nat, 0);
    let (y, m, d) = (pad4(t.year as nat), pad2(t.month as nat), pad2(t.day as nat));
    let (h, n) = (pad2(t.hour as nat), pad2(t.minute as nat));
    let p = file_stamp(t);
    assert(p == y + seq!['-'] + m + seq!['-'] + d + seq![' '] + h + n);
    assert(p[0] == y[0] && p[1] == y[1] && p[2] == y[2] && p[3] == y[3]);
    assert(p[5] == m[0] && p[6] == m[1] && p[8] == d[0] && p[9] == d[1]);
    assert(p[11] == h[0] && p[12] == h[1] && p[13] == n[0] && p[14] == n[1]);
}

/// Taking an ending away does not reach into the start time.
proof fn lemma_stamp_stays(p: Seq<char>, s: Seq<char>, suffix: Seq<char>)
    requires
        stamp_shaped(p),
        p.is_prefix_of(s),
        suffix.is_suffix_of(s),
        suffix.len() >= 2,
        !is_digit(suffix[0]),
        suffix[0] != '-',
        !is_digit(suffix[1]),
    ensures
        p.is_prefix_of(without_end(s, suffix)),
{
    let at = s.len() - suffix.len();
    assert(s[at as int] == suffix[0]);
    assert(s[at + 1] == suffix[1]);
    assert forall|i: int| 0 <= i < 15 implies p[i] == #[trigger] s[i] by {
        assert(p[i] == s.take(15)[i]);
    }
    if at < 15 {
        if at != 10 {
            assert(is_digit(p[at]) || p[at] == '-');
        } else {
            assert(is_digit(p[11]));
        }
        assert(false);
    }
    assert(p == s.take(at).take(15));
}

proof fn lemma_stamp_stays_throughout(p: Seq<char>, s: Seq<char>, suffix: Seq<char>)
    requires
        stamp_shaped(p),
        p.is_prefix_of(s),
        suffix.len() >= 2,
        !is_digit(suffix[0]),
        suffix[0] != '-',
        !is_digit(suffix[1]),
    ensures
        p.is_prefix_of(without_suffix(s, suffix)),
    decreases s.len(),
{
    if suffix.is_suffix_of(s) {
        lemma_stamp_stays(p, s, suffix);
        lemma_stamp_stays_throughout(p, without_end(s, suffix), suffix);
    }
}

proof fn lemma_stamp_is_read(p: Seq<char>, stem: Seq<char>)
    requires
        stamp_shaped(p),
        p.is_prefix_of(stem),
    ensures
        stamp_part(stem) == p,
{
    assert forall|i: int| 0 <= i < p.len() implies '\0' <= #[trigger] p[i] <= '\u{7f}' by {
        if i != 4 && i != 7 && i != 10 {
            assert(is_digit(p[i]));
        }
    }
    lemma_byte_prefix(p, stem.skip(15));
    assert(stem == p + stem.skip(15));
}

/// The start time survives in a meeting's file names: whatever the rest of the
/// name is, the text that is read as the start time is the one that was written.
/// The years are those that take four digits.
pub proof fn law_start_time_stays_in_the_name(t: CivilTime, rest: Seq<char>)
    requires
        t.valid(),
        0 <= t.year <= 9999,
    ensures
        stamp_part(saved_stem(file_stamp(t) + rest)) == file_stamp(t),
{
    let p = file_stamp(t);
    let name = p + rest;
    lemma_stamp_shape(t);
    assert(p == name.take(15));
    reveal_strlit(".md");
    reveal_strlit(" (mic).wav");
    reveal_strlit(" (system).wav");
    reveal_strlit(".wav");
    reveal_strlit(" (mic)");
    reveal_strlit(" (system)");
    if ".md"@.is_suffix_of(name) {
        lemma_stamp_stays(p, name, ".md"@);
    } else if " (mic).wav"@.is_suffix_of(name) {
        lemma_stamp_stays(p, name, " (mic).wav"@);
    } else if " (system).wav"@.is_suffix_of(name) {
        lemma_stamp_stays(p, name, " (system).wav"@);
    } else {
        let a = without_suffix(name, ".wav"@);
        let b = without_suffix(a, " (mic)"@);
        lemma_stamp_stays_throughout(p, name, ".wav"@);
        lemma_stamp_stays_throughout(p, a, " (mic)"@);
        lemma_stamp_stays_throughout(p, b, " (system)"@);
    }
    lemma_stamp_is_read(p, saved_stem(name));
}

/// Where a meeting can be transcribed again from: the stem of its files and its
/// start time. `display` is the path that was given, and `name` its file name
/// where that is readable.
pub fn retranscribe_source(
    status: MeetingStatus,
    display: &str,
    has_parent: bool,
    name: Option<&str>,
) -> (r: Result<(String, CivilTime), RetranscribeError>)
    ensures
        match r {
            Err(RetranscribeError::Busy) => status != MeetingStatus::Idle,
            Err(RetranscribeError::NoParent(path)) => status == MeetingStatus::Idle && !has_parent
                && path@ == display@,
            Err(RetranscribeError::Unreadable(path)) => status == MeetingStatus::Idle && has_parent
                && name is None && path@ == display@,
            Err(RetranscribeError::NoStart(stem, why)) => {
                &&& status == MeetingStatus::Idle && has_parent
                &&& name matches Some(n) && stem@ == saved_stem(n@)
                &&& date_read(stamp_part(stem@), FILE_STAMP@) matches Err(e) && e == why@
            },
            Ok((stem, t)) => {
                &&& status == MeetingStatus::Idle && has_parent
                &&& name matches Some(n) && stem@ == saved_stem(n@)
                &&& date_read(stamp_part(stem@), FILE_STAMP@) matches Ok(p) && p == parts(t)
                &&& t.valid()
            },
            _ => false,
        },
        forall|t: CivilTime, rest: Seq<char>|
            status == MeetingStatus::Idle && has_parent && t.valid() && 0 <= t.year <= 9999 && (
            name matches Some(n) && n@ == #[trigger] (file_stamp(t) + rest)) ==> r is Ok && r->Ok_0.1
                == t,
{
    match status {
        MeetingStatus::Idle => {},
        _ => {
            return Err(RetranscribeError::Busy);
        },
    }
    if !has_parent {
        return Err(RetranscribeError::NoParent(display.to_owned()));
    }
    let name = match name {
        Some(n) => n,
        None => {
            return Err(RetranscribeError::Unreadable(display.to_owned()));
        },
    };
    let stem = stem_of(name);
    let stamp = match byte_prefix(stem.as_str(), STAMP_BYTES) {
        Some(p) => p.to_owned(),
        None => String::new(),
    };
    assert(stamp@ == stamp_part(stem@));
    proof {
        assert forall|t: CivilTime, rest: Seq<char>|
            t.valid() && 0 <= t.year <= 9999 && name@ == #[trigger] (file_stamp(t) + rest) implies stamp@
            == file_stamp(t) by {
            law_start_time_stays_in_the_name(t, rest);
        }
    }
    match read_file_stamp(stamp.as_str()) {
        Ok(t) => Ok((stem, t)),
        Err(why) => Err(RetranscribeError::NoStart(stem, why)),
    }
}

/// The local start time of a meeting that is transcribed again; `single` tells
/// whether it stands for exactly one instant.
pub fn local_start(stem: &str, t: CivilTime, single: bool) -> (r: Result<
    CivilTime,
    RetranscribeError,
>)
    ensures
        match r {
            Ok(at) => single && at == t,
            Err(RetranscribeError::Ambiguous(s)) => !single && s@ == stem@,
            _ => false,
        },
{
    if single {
        Ok(t)
    } else {
        Err(RetranscribeError::Ambiguous(stem.to_owned()))
    }
}

/// The files of a meeting that is transcribed again from tracks of the given lengths:
/// those that it has, so that the new transcript takes the place of the old one. There
/// has to be something to transcribe.
pub fn retranscription_files(stem: &str, mic_samples: usize, system_samples: usize) -> (r: Result<
    MeetingFiles,
    RetranscribeError,
>)
    ensures
        match r {
            Ok(files) => {
                &&& mic_samples > 0 || system_samples > 0
                &&& files.stem@ == stem@
                &&& files.transcript@ == stem@ + ".md"@
                &&& text_view(files.mic) == track_name(stem@, " (mic).wav"@, mic_samples)
                &&& text_view(files.system) == track_name(
                    stem@,
                    " (system).wav"@,
                    system_samples,
                )
                &&& files.sidecar@ == stem@ + ".partial.jsonl"@
            },
            Err(RetranscribeError::NoTracks(s)) => mic_samples == 0 && system_samples == 0 && s@
                == stem@,
            _ => false,
        },
{
    if mic_samples == 0 && system_samples == 0 {
        Err(RetranscribeError::NoTracks(stem.to_owned()))
    } else {
        Ok(files_of_stem(stem, mic_samples, system_samples))
    }
}

impl<T> MeetingManager<T> {
    /// Where a saved meeting can be transcribed again from: the stem of its files
    /// and its start time. `path` names either track or the transcript, `name` is
    /// its file name where that is readable. A start time that the clocks went
    /// through twice, or never, is refused; which ones those are depends on the
    /// time zone of the machine.
    pub fn retranscribe_from_wavs(
        &self,
        path: &str,
        has_parent: bool,
        name: Option<&str>,
    ) -> (r: Result<(String, CivilTime), RetranscribeError>)
        ensures
            match r {
                Err(RetranscribeError::Busy) => !(self.state is Idle),
                Err(RetranscribeError::NoParent(p)) => self.state is Idle && !has_parent && p@
                    == path@,
                Err(RetranscribeError::Unreadable(p)) => self.state is Idle && has_parent
                    && name is None && p@ == path@,
                Err(RetranscribeError::NoStart(stem, why)) => {
                    &&& self.state is Idle && has_parent
                    &&& name matches Some(n) && stem@ == saved_stem(n@)
                    &&& date_read(stamp_part(stem@), FILE_STAMP@) matches Err(e) && e == why@
                },
                Err(RetranscribeError::Ambiguous(stem)) => {
                    &&& self.state is Idle && has_parent
                    &&& name matches Some(n) && stem@ == saved_stem(n@)
                    &&& date_read(stamp_part(stem@), FILE_STAMP@) is Ok
                },
                Ok((stem, t)) => {
                    &&& self.state is Idle && has_parent
                    &&& name matches Some(n) && stem@ == saved_stem(n@)
                    &&& date_read(stamp_part(stem@), FILE_STAMP@) matches Ok(p) && p == parts(t)
                    &&& t.valid()
                },
                Err(RetranscribeError::NoTracks(_)) => false,
            },
            forall|t: CivilTime, rest: Seq<char>|
                self.state is Idle && has_parent && t.valid() && 0 <= t.year <= 9999 && (
                name matches Some(n) && n@ == #[trigger] (file_stamp(t) + rest)) ==> match r {
                    Ok((_, at)) => at == t,
                    Err(e) => e is Ambiguous,
                },
    {
        match retranscribe_source(self.status(), path, has_parent, name) {
            Ok((stem, t)) => match local_start(stem.as_str(), t, is_single_local_time(&t)) {
                Ok(at) => Ok((stem, at)),
                Err(e) => Err(e),
            },
            Err(e) => Err(e),
        }
    }

    /// Begins to process the tracks of a saved meeting.
    pub fn begin_processing(&mut self)
        ensures
            final(self).state is Processing,
    {
        self.state = MeetingState::Processing;
    }
}

proof fn lemma_ending_goes(s: Seq<char>, suffix: Seq<char>)
    ensures
        suffix.is_suffix_of(s + suffix),
        without_end(s + suffix, suffix) == s,
{
    let name = s + suffix;
    assert(name.subrange(name.len() - suffix.len(), name.len() as int) == suffix);
    assert(without_end(name, suffix) == s);
}

proof fn lemma_other_ending(s: Seq<char>, suffix: Seq<char>, n: int)
    requires
        0 < n <= suffix.len(),
        n <= s.len(),
        s[s.len() - n] != suffix[suffix.len() - n],
    ensures
        !suffix.is_suffix_of(s),
{
    if suffix.is_suffix_of(s) {
        assert(s.subrange(s.len() - suffix.len(), s.len() as int)[suffix.len() - n]
            == suffix[suffix.len() - n]);
    }
}

/// Each file of a meeting leads back to the meeting: the transcript and both
/// tracks have the stem that they were named by.
pub proof fn law_files_lead_back(stem: Seq<char>)
    ensures
        saved_stem(stem + ".md"@) == stem,
        saved_stem(stem + " (mic).wav"@) == stem,
        saved_stem(stem + " (system).wav"@) == stem,
{
    reveal_strlit(".md");
    reveal_strlit(" (mic).wav");
    reveal_strlit(" (system).wav");
    lemma_ending_goes(stem, ".md"@);
    let mic = stem + " (mic).wav"@;
    lemma_other_ending(mic, ".md"@, 1);
    lemma_ending_goes(stem, " (mic).wav"@);
    let system = stem + " (system).wav"@;
    lemma_other_ending(system, ".md"@, 1);
    lemma_other_ending(system, " (mic).wav"@, 6);
    lemma_ending_goes(stem, " (system).wav"@);
}

/// A meeting is transcribed again in place: whichever of its files is given, and
/// whatever tracks are found, the transcript that is written is the one that was
/// there.
pub proof fn law_retranscription_is_in_place(stem: Seq<char>)
    ensures
        saved_stem(stem + ".md"@) + ".md"@ == stem + ".md"@,
        saved_stem(stem + " (mic).wav"@) + ".md"@ == stem + ".md"@,
        saved_stem(stem + " (system).wav"@) + ".md"@ == stem + ".md"@,
{
    law_files_lead_back(stem);
}

/// Whatever a meeting is called in the calendar, its files can be named after it:
/// the stem of their names holds nothing that a file system or a shell would choke
/// on. The years are those that take four digits.
pub proof fn law_file_names_are_safe(started: CivilTime, title: Option<Seq<char>>)
    requires
        started.valid(),
        0 <= started.year <= 9999,
    ensures
        forall|i: int|
            0 <= i < name_stem(started, title).len() ==> !unsafe_in_name(
                #[trigger] name_stem(started, title)[i],
            ),
{
    let p = file_stamp(started);
    let label = name_label(title);
    let stem = name_stem(started, title);
    lemma_stamp_shape(started);
    reveal_strlit(" ");
    reveal_strlit("Meeting");
    if let Some(t) = title {
        law_label_is_safe(t);
    }
    assert forall|i: int| 0 <= i < stem.len() implies !unsafe_in_name(#[trigger] stem[i]) by {
        if i < 15 {
            assert(stem[i] == p[i]);
            if i != 4 && i != 7 && i != 10 {
                assert(is_digit(p[i]));
            }
        } else if i > 15 {
            assert(stem[i] == label[i - 16]);
        }
    }
}

/// Whatever a file is called that no meeting wrote, what it may end in goes, as often as it
/// stands there: first the extension, then the mark of either track.
pub proof fn law_other_names_lose_their_endings(name: Seq<char>)
    requires
        !".md"@.is_suffix_of(name),
        !" (mic).wav"@.is_suffix_of(name),
        !" (system).wav"@.is_suffix_of(name),
    ensures
        ({
            let bare = without_suffix(name, ".wav"@);
            saved_stem(name) == without_suffix(without_suffix(bare, " (mic)"@), " (system)"@)
        }),
        !" (system)"@.is_suffix_of(saved_stem(name)),
        !".wav"@.is_suffix_of(name) && !" (mic)"@.is_suffix_of(name) && !" (system)"@.is_suffix_of(
            name,
        ) ==> saved_stem(name) == name,
{
    reveal_strlit(".wav");
    reveal_strlit(" (mic)");
    reveal_strlit(" (system)");
    let a = without_suffix(name, ".wav"@);
    let b = without_suffix(a, " (mic)"@);
    law_endings_go(name, ".wav"@);
    law_endings_go(a, " (mic)"@);
    law_endings_go(b, " (system)"@);
}

/// The start time is read from the first fifteen bytes of a stem.
pub proof fn law_start_time_is_fifteen_bytes(a: Seq<char>, b: Seq<char>)
    requires
        a.len() == 15,
        is_ascii_chars(a),
    ensures
        stamp_part(a + b) == a,
{
    lemma_byte_prefix(a, b);
}

/// The status tells the state.
pub proof fn law_status_tells_the_state<T>(state: MeetingState<T>)
    ensures
        state.status() == MeetingStatus::Idle <==> state is Idle,
        state.status() == MeetingStatus::Recording <==> state is Recording,
        state.status() == MeetingStatus::Processing <==> state is Processing,
{
}

} // verus!
