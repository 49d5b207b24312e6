//! From transcribed segments to the Markdown file of a meeting.

use vstd::prelude::*;
use vstd::string::*;

use crate::bleed::{
    drop_mic_bleed, heard_from_the_speakers, is_bleed, law_kept_lines,
    law_only_near_copies_are_dropped, without_bleed, Entry, MIC_SPEAKER, SYSTEM_SPEAKER,
};
use crate::calendar::CalendarContext;
use crate::clock::{clock24, file_stamp, iso_date, long_date, CivilTime};
use crate::order::{
    in_order, law_sort_is_stable, law_sort_keeps_items, law_sort_orders, lemma_filter_keeps_order,
    lemma_filter_source, sorted_by, stable_sort,
};
use crate::segments::{pieces_between, ranges, SAMPLE_RATE};
use crate::sidecar::{append_partial, record_text, sidecar_text, Record};
use crate::text::{
    dec, decimal, law_decimal_reads_back, number_written, row_of_digits, text_view, trim, trim_spec,
    views,
};
use crate::transcript::{file_label, sanitise_for_filename};
use crate::yaml::{
    law_scalar_reads_back, needs_quoting, on_one_line, scalar, scalar_read, yaml_scalar,
};

verus! {

/// How long the transcription model may take to load, in milliseconds.
pub const MODEL_LOAD_MS: u64 = 120_000;

/// What is said when the model did not load in time.
pub const MODEL_LOAD_ERROR: &'static str = "transcription model failed to load within 120s";

/// A recording longer than this, in seconds, is expected to hold speech.
pub const LONG_MEETING_SECS: usize = 60;

/// A microphone track with less speech than this, in seconds, counts as silent.
pub const SILENT_MIC_SECS: usize = 3;

/// What a transcript says of a silent microphone track.
pub const SILENT_MIC_NOTE: &'static str = "- Note: the mic track was almost entirely silent — only the system side was captured. (AirPods handshake? Check the log.)\n";

/// Whether to go on waiting for the model.
pub fn keeps_waiting(loaded: bool, waited_ms: u64) -> (r: bool)
    ensures
        r == (!loaded && waited_ms < MODEL_LOAD_MS),
        r <==> !loaded && waited_ms < 2 * 60 * 1000,
{
    !loaded && waited_ms < MODEL_LOAD_MS
}

/// The title of a calendar match.
pub open spec fn title_of(calendar: Option<&CalendarContext>) -> Option<Seq<char>> {
    match calendar {
        Some(c) => match c.title {
            Some(t) => Some(t@),
            None => None,
        },
        None => None,
    }
}

/// The attendees of a calendar match.
pub open spec fn attendees_of(calendar: Option<&CalendarContext>) -> Seq<Seq<char>> {
    match calendar {
        Some(c) => views(c.attendees@),
        None => Seq::empty(),
    }
}

/// What a meeting is called in its file names.
pub open spec fn name_label(title: Option<Seq<char>>) -> Seq<char> {
    match title {
        Some(t) => if file_label(t).len() > 0 {
            file_label(t)
        } else {
            "Meeting"@
        },
        None => "Meeting"@,
    }
}

/// How the names of a meeting's files begin: its start, so that a folder sorts by
/// time, and what it is called.
pub open spec fn name_stem(started: CivilTime, title: Option<Seq<char>>) -> Seq<char> {
    file_stamp(started) + " "@ + name_label(title)
}

/// The names of a meeting's files.
pub struct MeetingFiles {
    pub stem: String,
    /// The raw microphone track, where it holds anything.
    pub mic: Option<String>,
    /// The raw system track, where it holds anything.
    pub system: Option<String>,
    pub sidecar: String,
    pub transcript: String,
}

/// `stem` with an ending.
pub fn file_name(stem: &str, ending: &str) -> (r: String)
    ensures
        r@ == stem@ + ending@,
{
    let mut out = stem.to_owned();
    out.append(ending);
    out
}

/// The name of a track's file, where the track holds anything.
pub open spec fn track_name(stem: Seq<char>, ending: Seq<char>, samples: usize) -> Option<Seq<char>> {
    if samples > 0 {
        Some(stem + ending)
    } else {
        None
    }
}

fn track_file(stem: &str, ending: &str, samples: usize) -> (r: Option<String>)
    ensures
        text_view(r) == track_name(stem@, ending@, samples),
{
    if samples > 0 {
        Some(file_name(stem, ending))
    } else {
        None
    }
}

/// The title of a calendar match.
pub fn calendar_title(calendar: Option<&CalendarContext>) -> (r: Option<&str>)
    ensures
        match r {
            Some(t) => title_of(calendar) == Some(t@),
            None => title_of(calendar) is None,
        },
{
    match calendar {
        Some(c) => match &c.title {
            Some(t) => Some(t.as_str()),
            None => None,
        },
        None => None,
    }
}

/// The names of the files that go by a stem, of a meeting with tracks of the given
/// lengths.
pub fn files_of_stem(stem: &str, mic_samples: usize, system_samples: usize) -> (r: MeetingFiles)
    ensures
        r.stem@ == stem@,
        r.transcript@ == stem@ + ".md"@,
        text_view(r.mic) == track_name(stem@, " (mic).wav"@, mic_samples),
        text_view(r.system) == track_name(stem@, " (system).wav"@, system_samples),
        r.sidecar@ == stem@ + ".partial.jsonl"@,
{
    MeetingFiles {
        stem: stem.to_owned(),
        mic: track_file(stem, " (mic).wav", mic_samples),
        system: track_file(stem, " (system).wav", system_samples),
        sidecar: file_name(stem, ".partial.jsonl"),
        transcript: file_name(stem, ".md"),
    }
}

/// The names of the files of a new meeting with tracks of the given lengths.
pub fn meeting_files(
    started: &CivilTime,
    calendar: Option<&CalendarContext>,
    mic_samples: usize,
    system_samples: usize,
) -> (r: MeetingFiles)
    requires
        started.valid(),
    ensures
        r.stem@ == name_stem(*started, title_of(calendar)),
        text_view(r.mic) == track_name(r.stem@, " (mic).wav"@, mic_samples),
        text_view(r.system) == track_name(r.stem@, " (system).wav"@, system_samples),
        r.sidecar@ == r.stem@ + ".partial.jsonl"@,
        r.transcript@ == r.stem@ + ".md"@,
{
    let mut stem = started.file_stamp();
    stem.append(" ");
    let label = match calendar_title(calendar) {
        Some(t) => sanitise_for_filename(t),
        None => String::new(),
    };
    if label.as_str().unicode_len() > 0 {
        stem.append(label.as_str());
    } else {
        stem.append("Meeting");
    }
    files_of_stem(stem.as_str(), mic_samples, system_samples)
}

/// One of the two tracks of a recording.
#[derive(Clone, Copy, Debug, PartialEq, Eq, Structural)]
pub enum Track {
    Microphone,
    System,
}

impl Track {
    /// Who speaks on a track.
    pub open spec fn speaker_spec(self) -> Seq<char> {
        match self {
            Track::Microphone => MIC_SPEAKER@,
            Track::System => SYSTEM_SPEAKER@,
        }
    }

    /// Who speaks on a track.
    pub fn speaker(self) -> (r: &'static str)
        ensures
            r@ == self.speaker_spec(),
    {
        match self {
            Track::Microphone => MIC_SPEAKER,
            Track::System => SYSTEM_SPEAKER,
        }
    }
}

/// A piece of a track to transcribe: the track, and its first and last sample.
pub type Job = (Track, usize, usize);

/// The jobs that the segments of one track make.
pub open spec fn jobs_on(track: Track, segments: Seq<(usize, usize)>) -> Seq<Job> {
    segments.map_values(|s: (usize, usize)| (track, s.0, s.1))
}

/// What is transcribed, in order: the microphone track first.
pub fn transcription_jobs(mic: &[(usize, usize)], system: &[(usize, usize)]) -> (r: Vec<Job>)
    ensures
        r@ == jobs_on(Track::Microphone, mic@) + jobs_on(Track::System, system@),
{
    let mut out: Vec<Job> = Vec::new();
    let mut i: usize = 0;
    while i < mic.len()
        invariant
            i <= mic@.len(),
            out@ == jobs_on(Track::Microphone, mic@).take(i as int),
        decreases mic@.len() - i,
    {
        let (start, end) = mic[i];
        out.push((Track::Microphone, start, end));
        assert(out@ == jobs_on(Track::Microphone, mic@).take(i + 1));
        i += 1;
    }
    let ghost first = jobs_on(Track::Microphone, mic@);
    assert(out@ == first + jobs_on(Track::System, system@).take(0));
    i = 0;
    while i < system.len()
        invariant
            i <= system@.len(),
            out@ == first + jobs_on(Track::System, system@).take(i as int),
        decreases system@.len() - i,
    {
        let (start, end) = system[i];
        out.push((Track::System, start, end));
        assert(out@ == first + jobs_on(Track::System, system@).take(i + 1));
        i += 1;
    }
    assert(jobs_on(Track::System, system@).take(i as int) == jobs_on(Track::System, system@));
    out
}

/// How many whole seconds the segments hold, each counted by itself.
pub open spec fn active_secs(segments: Seq<(int, int)>) -> int
    decreases segments.len(),
{
    if segments.len() == 0 {
        0
    } else {
        active_secs(segments.drop_last()) + (segments.last().1 - segments.last().0) / (
        SAMPLE_RATE as int)
    }
}

proof fn lemma_active_secs_grow(segments: Seq<(int, int)>, n: int)
    requires
        0 <= n <= segments.len(),
        forall|k: int| 0 <= k < segments.len() ==> (#[trigger] segments[k]).0 <= segments[k].1,
    ensures
        0 <= active_secs(segments.take(n)) <= active_secs(segments),
    decreases segments.len(),
{
    if n < segments.len() {
        let shorter = segments.drop_last();
        assert forall|k: int| 0 <= k < shorter.len() implies (#[trigger] shorter[k]).0
            <= shorter[k].1 by {
            assert(shorter[k] == segments[k]);
        }
        lemma_active_secs_grow(shorter, n);
        assert(shorter.take(n) == segments.take(n));
        assert(segments[segments.len() - 1].0 <= segments[segments.len() - 1].1);
    } else {
        assert(segments.take(n) == segments);
        if n > 0 {
            let shorter = segments.drop_last();
            assert forall|k: int| 0 <= k < shorter.len() implies (#[trigger] shorter[k]).0
                <= shorter[k].1 by {
                assert(shorter[k] == segments[k]);
            }
            lemma_active_secs_grow(shorter, n - 1);
            assert(segments[n - 1].0 <= segments[n - 1].1);
            assert(shorter.take(n - 1) == shorter);
        }
    }
}

/// How many whole seconds the segments of a track hold, each counted by itself.
pub fn mic_active_secs(segments: &[(usize, usize)]) -> (r: usize)
    requires
        forall|k: int| 0 <= k < segments@.len() ==> (#[trigger] segments@[k]).0 <= segments@[k].1,
        active_secs(ranges(segments@)) <= usize::MAX,
    ensures
        r == active_secs(ranges(segments@)),
{
    let ghost ps = ranges(segments@);
    let mut sum: usize = 0;
    let mut i: usize = 0;
    while i < segments.len()
        invariant
            i <= segments@.len(),
            ps == ranges(segments@),
            forall|k: int| 0 <= k < segments@.len() ==> (#[trigger] segments@[k]).0
                <= segments@[k].1,
            active_secs(ps) <= usize::MAX,
            sum == active_secs(ps.take(i as int)),
        decreases segments@.len() - i,
    {
        let (start, end) = segments[i];
        assert(ps.take(i + 1).drop_last() == ps.take(i as int));
        assert(ps[i as int] == (start as int, end as int));
        proof {
            assert forall|k: int| 0 <= k < ps.len() implies (#[trigger] ps[k]).0 <= ps[k].1 by {
                assert(segments@[k].0 <= segments@[k].1);
            }
            lemma_active_secs_grow(ps, i + 1);
        }
        sum += (end - start) / SAMPLE_RATE;
        i += 1;
    }
    assert(ps.take(i as int) == ps);
    sum
}

/// The segments of a track hold no more seconds than the track, so that they can
/// be counted.
pub proof fn law_speech_fits_the_track(segments: Seq<(int, int)>, samples: int)
    requires
        pieces_between(segments, 0, samples),
        samples >= 0,
    ensures
        active_secs(segments) * SAMPLE_RATE <= samples,
        segments.len() > 0 ==> active_secs(segments) * SAMPLE_RATE <= segments.last().1,
    decreases segments.len(),
{
    if segments.len() > 0 {
        let earlier = segments.drop_last();
        assert forall|k: int| 0 <= k < earlier.len() implies 0 <= (#[trigger] earlier[k]).0
            < earlier[k].1 <= samples && earlier[k].1 - earlier[k].0
            <= crate::segments::MAX_REGION_SAMPLES by {
            assert(earlier[k] == segments[k]);
        }
        assert forall|k: int, l: int| 0 <= k < l < earlier.len() implies (#[trigger] earlier[k]).1
            <= (#[trigger] earlier[l]).0 by {
            assert(earlier[k] == segments[k] && earlier[l] == segments[l]);
        }
        law_speech_fits_the_track(earlier, samples);
        let last = segments[segments.len() - 1];
        assert(0 <= last.0 < last.1 <= samples);
        if earlier.len() > 0 {
            assert(earlier.last() == segments[segments.len() - 2]);
            assert(segments[segments.len() - 2].1 <= last.0);
        }
    }
}

/// The record of a transcribed segment in the sidecar.
pub open spec fn record_of(e: Entry) -> Record {
    (e.0 as u64, e.1@, e.2@)
}

/// What has been transcribed so far.
pub struct TranscriptLog {
    pub entries: Vec<Entry>,
}

impl TranscriptLog {
    /// Whether every segment starts where its sample number can be compared.
    pub open spec fn valid(self) -> bool {
        forall|j: int| 0 <= j < self.entries@.len() ==> (#[trigger] self.entries@[j]).0 <= i64::MAX
    }

    /// The records of the segments.
    pub open spec fn records(self) -> Seq<Record> {
        self.entries@.map_values(|e: Entry| record_of(e))
    }

    /// Nothing transcribed yet.
    pub fn new() -> (r: Self)
        ensures
            r.entries@.len() == 0,
            r.valid(),
    {
        TranscriptLog { entries: Vec::new() }
    }

    /// Takes in what was heard in a segment. Blank text is dropped; anything else
    /// is kept, and comes with the line to append to the sidecar at once, so that
    /// the sidecar holds exactly the records of this log.
    pub fn heard(&mut self, start: usize, track: Track, text: &str) -> (r: Option<String>)
        ensures
            old(self).valid() && start <= i64::MAX ==> final(self).valid(),
            match r {
                Some(line) => {
                    &&& trim_spec(text@).len() > 0
                    &&& final(self).entries@.len() == old(self).entries@.len() + 1
                    &&& final(self).entries@.drop_last() == old(self).entries@
                    &&& record_of(final(self).entries@.last()) == (
                        start as u64,
                        track.speaker_spec(),
                        trim_spec(text@),
                    )
                    &&& line@ == record_text(record_of(final(self).entries@.last())).push('\n')
                    &&& sidecar_text(final(self).records()) == sidecar_text(old(self).records())
                        + line@
                },
                None => trim_spec(text@).len() == 0 && *final(self) == *old(self),
            },
    {
        let bare = trim(text);
        if bare.unicode_len() == 0 {
            return None;
        }
        let line = append_partial(start, track.speaker(), bare);
        let ghost before = self.records();
        self.entries.push((start, track.speaker(), bare.to_owned()));
        assert(self.records().drop_last() == before);
        assert(self.entries@.drop_last() == old(self).entries@);
        Some(line)
    }

    /// The segments in the order of their first samples, without the microphone's
    /// copies of the far side.
    pub fn finish(self) -> (r: Vec<Entry>)
        requires
            self.valid(),
        ensures
            r@ == finished(self.entries@),
    {
        let ghost before = self.entries@;
        let ghost model = |a: Entry, b: Entry| entry_before(a, b);
        let sorted = sorted_by(self.entries, is_entry_before, Ghost(model));
        proof {
            law_sort_keeps_items(before, model);
            assert forall|j: int| 0 <= j < sorted@.len() implies (#[trigger] sorted@[j]).0
                <= i64::MAX by {
                assert(sorted@.contains(sorted@[j]));
                sorted@.to_multiset_ensures();
                before.to_multiset_ensures();
                assert(before.to_multiset().count(sorted@[j]) > 0);
                assert(before.contains(sorted@[j]));
            }
        }
        drop_mic_bleed(sorted)
    }
}

/// Whether a segment starts before another.
pub open spec fn entry_before(a: Entry, b: Entry) -> bool {
    a.0 < b.0
}

/// The segments as a transcript shows them: in the order of their first samples,
/// without the microphone's copies of the far side.
pub open spec fn finished(entries: Seq<Entry>) -> Seq<Entry> {
    without_bleed(stable_sort(entries, |a: Entry, b: Entry| entry_before(a, b)))
}

fn is_entry_before(a: &Entry, b: &Entry) -> (r: bool)
    ensures
        r == entry_before(*a, *b),
{
    a.0 < b.0
}

/// The title line of the front matter.
pub open spec fn title_line(title: Option<Seq<char>>) -> Seq<char> {
    match title {
        Some(t) => "title: "@ + scalar(t) + "\n"@,
        None => "title: null\n"@,
    }
}

/// The attendees, one line each.
pub open spec fn attendee_lines(names: Seq<Seq<char>>) -> Seq<char>
    decreases names.len(),
{
    if names.len() == 0 {
        Seq::empty()
    } else {
        attendee_lines(names.drop_last()) + "  - "@ + scalar(names.last()) + "\n"@
    }
}

/// The attendees in the front matter.
pub open spec fn attendee_block(names: Seq<Seq<char>>) -> Seq<char> {
    if names.len() == 0 {
        "attendees: []\n"@
    } else {
        "attendees:\n"@ + attendee_lines(names)
    }
}

/// The YAML front matter. It is there whether or not the calendar knew the
/// meeting, and says which.
pub open spec fn front_matter(
    started: CivilTime,
    calendar: Option<&CalendarContext>,
    duration_secs: nat,
) -> Seq<char> {
    "---\ndate: "@ + iso_date(started) + "\nstart: "@ + clock24(
        started.hour as nat,
        started.minute as nat,
    ) + "\nduration_minutes: "@ + dec(duration_secs / 60) + "\n"@ + title_line(title_of(calendar))
        + attendee_block(attendees_of(calendar)) + "calendar_matched: "@ + (if calendar is Some {
        "true"@
    } else {
        "false"@
    }) + "\nsource: lark\n---\n\n"@
}

/// The heading, and the lines below it.
pub open spec fn heading(
    started: CivilTime,
    title: Option<Seq<char>>,
    duration_secs: nat,
    mic_secs: nat,
) -> Seq<char> {
    "# "@ + (match title {
        Some(t) => t,
        None => "Meeting"@,
    }) + " — "@ + long_date(started) + "\n\n- Duration: "@ + dec(duration_secs / 60) + " min "@ + dec(
        duration_secs % 60,
    ) + " sec\n- Transcribed locally by Lark\n"@ + (if duration_secs > LONG_MEETING_SECS && mic_secs
        < SILENT_MIC_SECS {
        SILENT_MIC_NOTE@
    } else {
        ""@
    })
}

/// What came of the request for notes: notes, none wanted, or why there are none.
pub type Notes = Result<Option<String>, String>;

/// The notes, above the transcript.
pub open spec fn notes_block(notes: Notes) -> Seq<char> {
    match notes {
        Ok(Some(n)) => "\n## Notes\n\n"@ + trim_spec(n@) + "\n"@,
        Ok(None) => ""@,
        Err(e) => "\n## Notes\n\n_Not generated: "@ + e@ + "_\n"@,
    }
}

/// The Markdown file of a meeting.
pub open spec fn document_text(
    started: CivilTime,
    calendar: Option<&CalendarContext>,
    duration_secs: nat,
    mic_secs: nat,
    notes: Notes,
    body: Seq<char>,
) -> Seq<char> {
    front_matter(started, calendar, duration_secs) + heading(
        started,
        title_of(calendar),
        duration_secs,
        mic_secs,
    ) + notes_block(notes) + "\n## Transcript\n\n"@ + body
}

/// How long a recording with tracks of the given lengths lasted, in seconds.
pub fn duration_secs(mic_samples: usize, system_samples: usize) -> (r: usize)
    ensures
        r == (if mic_samples < system_samples {
            system_samples
        } else {
            mic_samples
        }) / SAMPLE_RATE,
{
    if mic_samples < system_samples {
        system_samples / SAMPLE_RATE
    } else {
        mic_samples / SAMPLE_RATE
    }
}

fn push_attendees(out: &mut String, calendar: Option<&CalendarContext>)
    ensures
        final(out)@ == old(out)@ + attendee_block(attendees_of(calendar)),
{
    let ghost before = out@;
    let ghost names = attendees_of(calendar);
    match calendar {
        Some(c) => {
            if c.attendees.len() == 0 {
                out.append("attendees: []\n");
                return ;
            }
            out.append("attendees:\n");
            let ghost head = out@;
            let mut i: usize = 0;
            assert(head + attendee_lines(names.take(0)) == head);
            while i < c.attendees.len()
                invariant
                    i <= c.attendees@.len(),
                    names == views(c.attendees@),
                    out@ == head + attendee_lines(names.take(i as int)),
                decreases c.attendees@.len() - i,
            {
                assert(names.take(i + 1).drop_last() == names.take(i as int));
                let ghost so_far = attendee_lines(names.take(i as int));
                let name = yaml_scalar(c.attendees[i].as_str());
                out.append("  - ");
                out.append(name.as_str());
                out.append("\n");
                assert(out@ == head + (so_far + "  - "@ + scalar(names[i as int]) + "\n"@));
                i += 1;
            }
            assert(names.take(i as int) == names);
            assert(out@ == before + ("attendees:\n"@ + attendee_lines(names)));
        },
        None => {
            out.append("attendees: []\n");
        },
    }
}

fn render_front_matter(
    started: &CivilTime,
    calendar: Option<&CalendarContext>,
    duration: usize,
) -> (r: String)
    requires
        started.valid(),
    ensures
        r@ == front_matter(*started, calendar, duration as nat),
{
    let mut out = "---\ndate: ".to_owned();
    let date = started.iso_date();
    out.append(date.as_str());
    out.append("\nstart: ");
    let clock = started.clock24();
    out.append(clock.as_str());
    out.append("\nduration_minutes: ");
    let minutes = decimal((duration / 60) as u64);
    out.append(minutes.as_str());
    out.append("\n");
    let ghost head = out@;
    match calendar_title(calendar) {
        Some(t) => {
            let title = yaml_scalar(t);
            out.append("title: ");
            out.append(title.as_str());
            out.append("\n");
        },
        None => {
            out.append("title: null\n");
        },
    }
    assert(out@ == head + title_line(title_of(calendar)));
    push_attendees(&mut out, calendar);
    out.append("calendar_matched: ");
    out.append(
        if calendar.is_some() {
            "true"
        } else {
            "false"
        },
    );
    out.append("\nsource: lark\n---\n\n");
    out
}

fn render_heading(
    started: &CivilTime,
    calendar: Option<&CalendarContext>,
    duration: usize,
    mic_secs: usize,
) -> (r: String)
    requires
        started.valid(),
    ensures
        r@ == heading(*started, title_of(calendar), duration as nat, mic_secs as nat),
{
    let mut out = "# ".to_owned();
    out.append(
        match calendar_title(calendar) {
            Some(t) => t,
            None => "Meeting",
        },
    );
    out.append(" — ");
    let date = started.long_date();
    out.append(date.as_str());
    out.append("\n\n- Duration: ");
    let minutes = decimal((duration / 60) as u64);
    out.append(minutes.as_str());
    out.append(" min ");
    let seconds = decimal((duration % 60) as u64);
    out.append(seconds.as_str());
    out.append(" sec\n- Transcribed locally by Lark\n");
    out.append(
        if duration > LONG_MEETING_SECS && mic_secs < SILENT_MIC_SECS {
            SILENT_MIC_NOTE
        } else {
            ""
        },
    );
    out
}

/// The Markdown file of a meeting.
pub fn render_document(
    started: &CivilTime,
    calendar: Option<&CalendarContext>,
    duration: usize,
    mic_secs: usize,
    notes: &Notes,
    body: &str,
) -> (r: String)
    requires
        started.valid(),
    ensures
        r@ == document_text(*started, calendar, duration as nat, mic_secs as nat, *notes, body@),
{
    let mut out = render_front_matter(started, calendar, duration);
    let top = render_heading(started, calendar, duration, mic_secs);
    out.append(top.as_str());
    let ghost head = out@;
    match notes {
        Ok(Some(n)) => {
            out.append("\n## Notes\n\n");
            out.append(trim(n.as_str()));
            out.append("\n");
        },
        Ok(None) => {
            out.append("");
        },
        Err(e) => {
            out.append("\n## Notes\n\n_Not generated: ");
            out.append(e.as_str());
            out.append("_\n");
        },
    }
    assert(out@ == head + notes_block(*notes));
    out.append("\n## Transcript\n\n");
    out.append(body);
    out
}

/// A failed summary never costs the transcript: whatever came of the notes, the
/// file ends with the transcript, and differs from the file without notes only by
/// the notes above it.
pub proof fn law_notes_never_cost_the_transcript(
    started: CivilTime,
    calendar: Option<&CalendarContext>,
    duration_secs: nat,
    mic_secs: nat,
    notes: Notes,
    body: Seq<char>,
)
    ensures
        body.is_suffix_of(document_text(started, calendar, duration_secs, mic_secs, notes, body)),
        exists|head: Seq<char>, tail: Seq<char>|
            document_text(started, calendar, duration_secs, mic_secs, notes, body) == #[trigger] (
            head + notes_block(notes) + tail) && document_text(
                started,
                calendar,
                duration_secs,
                mic_secs,
                Ok(None),
                body,
            ) == head + tail,
{
    reveal_strlit("");
    let doc = document_text(started, calendar, duration_secs, mic_secs, notes, body);
    assert(doc.subrange(doc.len() - body.len(), doc.len() as int) == body);
    let head = front_matter(started, calendar, duration_secs) + heading(
        started,
        title_of(calendar),
        duration_secs,
        mic_secs,
    );
    let tail = "\n## Transcript\n\n"@ + body;
    assert(doc == head + notes_block(notes) + tail);
    let plain = document_text(started, calendar, duration_secs, mic_secs, Ok(None), body);
    assert(plain == head + tail);
}

/// A transcript runs in time: no line starts before the one above it.
pub proof fn law_transcript_runs_in_time(entries: Seq<Entry>)
    ensures
        in_order(finished(entries), |a: Entry, b: Entry| entry_before(a, b)),
{
    let before = |a: Entry, b: Entry| entry_before(a, b);
    let sorted = stable_sort(entries, before);
    law_sort_orders(entries, before);
    lemma_filter_keeps_order(sorted, before, |e: Entry| !is_bleed(e, sorted));
}

/// Nothing that the far side said is lost on the way from the segments to the
/// transcript, and nothing is added.
pub proof fn law_far_side_reaches_the_transcript(entries: Seq<Entry>, e: Entry)
    ensures
        entries.contains(e) && e.1@ == SYSTEM_SPEAKER@ ==> finished(entries).contains(e),
        finished(entries).contains(e) ==> entries.contains(e),
{
    broadcast use vstd::seq_lib::group_to_multiset_ensures;

    let before = |a: Entry, b: Entry| entry_before(a, b);
    let sorted = stable_sort(entries, before);
    law_sort_keeps_items(entries, before);
    assert(sorted.contains(e) <==> sorted.to_multiset().count(e) > 0);
    assert(entries.contains(e) <==> entries.to_multiset().count(e) > 0);
    reveal_strlit("Kole");
    reveal_strlit("Them");
    assert(MIC_SPEAKER@[0] != SYSTEM_SPEAKER@[0]);
    if sorted.contains(e) {
        law_kept_lines(sorted, e);
    }
    if finished(entries).contains(e) {
        let keep = |x: Entry| !is_bleed(x, sorted);
        let i = choose|i: int| 0 <= i < finished(entries).len() && finished(entries)[i] == e;
        let k = lemma_filter_source(sorted, keep, i);
        assert(sorted[k] == e);
    }
}

/// A reader of a processed meeting never has to do without the front matter: its file
/// begins with it, and its title and attendees read back as the calendar gave them, as
/// far as a line of YAML can hold them. (What is rebuilt from the sidecar of a run that
/// died has none.)
pub proof fn law_front_matter_is_always_there(
    started: CivilTime,
    calendar: Option<&CalendarContext>,
    duration_secs: nat,
    mic_secs: nat,
    notes: Notes,
    body: Seq<char>,
)
    ensures
        front_matter(started, calendar, duration_secs).is_prefix_of(
            document_text(started, calendar, duration_secs, mic_secs, notes, body),
        ),
        title_of(calendar) matches Some(t) ==> on_one_line(t) ==> scalar_read(scalar(t)) == Some(
            t,
        ),
        forall|k: int|
            0 <= k < attendees_of(calendar).len() && on_one_line(
                #[trigger] attendees_of(calendar)[k],
            ) ==> scalar_read(scalar(attendees_of(calendar)[k])) == Some(attendees_of(calendar)[k]),
{
    let front = front_matter(started, calendar, duration_secs);
    let doc = document_text(started, calendar, duration_secs, mic_secs, notes, body);
    assert(doc.take(front.len() as int) == front);
    if let Some(t) = title_of(calendar) {
        if on_one_line(t) {
            law_scalar_reads_back(t);
        }
    }
    assert forall|k: int|
        0 <= k < attendees_of(calendar).len() && on_one_line(
            #[trigger] attendees_of(calendar)[k],
        ) implies scalar_read(scalar(attendees_of(calendar)[k])) == Some(
        attendees_of(calendar)[k],
    ) by {
        law_scalar_reads_back(attendees_of(calendar)[k]);
    }
}

/// The line that says that there is no title says nothing else: no meeting, whatever it
/// is called, gets it.
pub proof fn law_no_title_is_told_apart(title: Seq<char>)
    ensures
        title_line(Some(title)) != title_line(None),
{
    let (some, none) = (title_line(Some(title)), title_line(None));
    reveal_strlit("title: ");
    reveal_strlit("\n");
    reveal_strlit("null");
    reveal_strlit("title: null\n");
    if some == none {
        let t = scalar(title);
        assert(t == some.subrange(7, some.len() - 1));
        assert(t == "null"@);
        assert(t[0] == 'n');
        assert(needs_quoting("null"@));
    }
}

/// A meeting's files are named after it: its start, a space, and the label of its title,
/// or `Meeting` where there is no title, or none that a label can be made of.
pub proof fn law_files_are_named_after_the_meeting(started: CivilTime, title: Seq<char>)
    ensures
        name_stem(started, None) == file_stamp(started) + " Meeting"@,
        file_label(title).len() > 0 ==> name_stem(started, Some(title)) == file_stamp(started)
            + " "@ + file_label(title),
        file_label(title).len() == 0 ==> name_stem(started, Some(title)) == file_stamp(started)
            + " Meeting"@,
{
    reveal_strlit(" ");
    reveal_strlit("Meeting");
    reveal_strlit(" Meeting");
    assert(" "@ + "Meeting"@ == " Meeting"@);
    assert(file_stamp(started) + " "@ + "Meeting"@ == file_stamp(started) + (" "@ + "Meeting"@));
}

/// A track that holds anything has a file, by the stem and its ending; one that holds
/// nothing has none.
pub proof fn law_empty_tracks_have_no_file(stem: Seq<char>, ending: Seq<char>, samples: usize)
    ensures
        samples == 0 ==> track_name(stem, ending, samples) is None,
        samples > 0 ==> track_name(stem, ending, samples) == Some(stem + ending),
{
}

/// Each segment of a track is one job on that track, in order, with its own bounds.
pub proof fn law_each_segment_is_a_job(track: Track, segments: Seq<(usize, usize)>, i: int)
    requires
        0 <= i < segments.len(),
    ensures
        jobs_on(track, segments).len() == segments.len(),
        jobs_on(track, segments)[i].0 == track,
        jobs_on(track, segments)[i].1 == segments[i].0,
        jobs_on(track, segments)[i].2 == segments[i].1,
{
}

/// Who speaks on a track is told by it: the user on the microphone's, the far side on the
/// system's.
pub proof fn law_tracks_tell_the_speakers()
    ensures
        Track::Microphone.speaker_spec() == "Kole"@,
        Track::System.speaker_spec() == "Them"@,
{
}

/// A segment more is its whole seconds more.
pub proof fn law_speech_adds_up(segments: Seq<(int, int)>, s: (int, int))
    ensures
        active_secs(Seq::<(int, int)>::empty()) == 0,
        active_secs(segments.push(s)) == active_secs(segments) + (s.1 - s.0) / 16_000,
{
    assert(segments.push(s).drop_last() == segments);
}

proof fn lemma_filter_counts(s: Seq<Entry>, keep: spec_fn(Entry) -> bool, e: Entry)
    ensures
        s.filter(keep).to_multiset().count(e) == if keep(e) {
            s.to_multiset().count(e)
        } else {
            0
        },
    decreases s.len(),
{
    broadcast use vstd::seq_lib::group_to_multiset_ensures;

    reveal(Seq::filter);
    if s.len() > 0 {
        let head = s.drop_last();
        lemma_filter_counts(head, keep, e);
        assert(s == head.push(s.last()));
    }
}

proof fn lemma_filter_both(
    s: Seq<Entry>,
    p: spec_fn(Entry) -> bool,
    q: spec_fn(Entry) -> bool,
    r: spec_fn(Entry) -> bool,
)
    requires
        forall|e: Entry| #[trigger] r(e) == (p(e) && q(e)),
    ensures
        s.filter(p).filter(q) == s.filter(r),
    decreases s.len(),
{
    reveal(Seq::filter);
    if s.len() > 0 {
        lemma_filter_both(s.drop_last(), p, q, r);
        assert(r(s.last()) == (p(s.last()) && q(s.last())));
        let head = s.drop_last().filter(p);
        assert(head.push(s.last()).drop_last() == head);
    }
}

proof fn lemma_same_lines_same_speakers(a: Seq<Entry>, b: Seq<Entry>, e: Entry)
    requires
        a.to_multiset() == b.to_multiset(),
        heard_from_the_speakers(e, a),
    ensures
        heard_from_the_speakers(e, b),
{
    broadcast use vstd::seq_lib::group_to_multiset_ensures;

    let j = choose|j: int|
        {
            &&& 0 <= j < a.len()
            &&& (#[trigger] a[j]).1@ == "Them"@
            &&& e.0 - a[j].0 < 8 * 16_000
            &&& a[j].0 - e.0 < 8 * 16_000
            &&& e.2@.len() == 0 && a[j].2@.len() == 0 || 4 * crate::bleed::edit_distance(
                e.2@,
                a[j].2@,
            ) < e.2@.len() || 4 * crate::bleed::edit_distance(e.2@, a[j].2@) < a[j].2@.len()
        };
    assert(a.contains(a[j]));
    assert(b.to_multiset().count(a[j]) > 0);
    assert(b.contains(a[j]));
    let k = choose|k: int| 0 <= k < b.len() && b[k] == a[j];
    assert(b[k].1@ == "Them"@);
}

/// A transcript is what was said, in time: each segment as often as it was heard, but for
/// what the microphone had from the speakers, ordered by where they start, and those that
/// start together in the order in which they were transcribed.
pub proof fn law_transcript_is_what_was_said(entries: Seq<Entry>, e: Entry, start: usize)
    ensures
        finished(entries).to_multiset().count(e) == if heard_from_the_speakers(e, entries) {
            0
        } else {
            entries.to_multiset().count(e)
        },
        forall|i: int, j: int|
            0 <= i < j < finished(entries).len() ==> (#[trigger] finished(entries)[i]).0 <= (
            #[trigger] finished(entries)[j]).0,
        finished(entries).filter(|x: Entry| x.0 == start) == entries.filter(
            |x: Entry| x.0 == start && !heard_from_the_speakers(x, entries),
        ),
{
    let before = |a: Entry, b: Entry| entry_before(a, b);
    let sorted = stable_sort(entries, before);
    law_sort_keeps_items(entries, before);
    law_only_near_copies_are_dropped(sorted);
    let keep = |x: Entry| !heard_from_the_speakers(x, sorted);
    let at = |x: Entry| x.0 == start;
    assert forall|x: Entry| heard_from_the_speakers(x, sorted) == heard_from_the_speakers(
        x,
        entries,
    ) by {
        if heard_from_the_speakers(x, sorted) {
            lemma_same_lines_same_speakers(sorted, entries, x);
        }
        if heard_from_the_speakers(x, entries) {
            lemma_same_lines_same_speakers(entries, sorted, x);
        }
    }
    lemma_filter_counts(sorted, keep, e);
    law_sort_orders(entries, before);
    lemma_filter_keeps_order(sorted, before, keep);
    let kept = finished(entries);
    assert forall|i: int, j: int| 0 <= i < j < kept.len() implies (#[trigger] kept[i]).0 <= (
    #[trigger] kept[j]).0 by {
        assert(!before(kept[j], kept[i]));
    }
    let both = |x: Entry| x.0 == start && !heard_from_the_speakers(x, entries);
    lemma_filter_both(sorted, keep, at, both);
    lemma_filter_both(sorted, at, keep, both);
    law_sort_is_stable(entries, before, at);
    lemma_filter_both(entries, at, keep, both);
}

/// The title in the front matter is that of the meeting, as a YAML scalar; without one it
/// is null.
pub proof fn law_title_line_tells_the_title(title: Seq<char>)
    ensures
        title_line(None) == "title: null\n"@,
        title_line(Some(title)) == "title: "@ + scalar(title) + "\n"@,
{
}

/// The attendees stand in the front matter one to a line, in their order, none left out;
/// without any the list is empty.
pub proof fn law_attendees_stand_in_order(names: Seq<Seq<char>>, name: Seq<char>)
    ensures
        attendee_block(Seq::<Seq<char>>::empty()) == "attendees: []\n"@,
        attendee_block(seq![name]) == "attendees:\n"@ + ("  - "@ + scalar(name) + "\n"@),
        names.len() > 0 ==> attendee_block(names.push(name)) == attendee_block(names) + ("  - "@
            + scalar(name) + "\n"@),
{
    let one = seq![name];
    assert(one.drop_last() == Seq::<Seq<char>>::empty());
    assert(attendee_lines(one.drop_last()) == Seq::<char>::empty());
    assert(attendee_lines(one) == "  - "@ + scalar(name) + "\n"@);
    assert(names.push(name).drop_last() == names);
    if names.len() > 0 {
        assert(attendee_block(names.push(name)) == attendee_block(names) + ("  - "@ + scalar(name)
            + "\n"@));
    }
}

/// The front matter tells when the meeting was, how long it took in whole minutes, what it
/// was called, who took part, and whether the calendar knew it.
pub proof fn law_front_matter_tells_the_meeting(
    started: CivilTime,
    calendar: Option<&CalendarContext>,
    duration_secs: nat,
) -> (minutes: Seq<char>)
    ensures
        row_of_digits(minutes),
        60 * number_written(minutes) <= duration_secs < 60 * number_written(minutes) + 60,
        front_matter(started, calendar, duration_secs) == "---\ndate: "@ + iso_date(started)
            + "\nstart: "@ + clock24(started.hour as nat, started.minute as nat)
            + "\nduration_minutes: "@ + minutes + "\n"@ + title_line(title_of(calendar))
            + attendee_block(attendees_of(calendar)) + "calendar_matched: "@ + (match calendar {
            Some(_) => "true"@,
            None => "false"@,
        }) + "\nsource: lark\n---\n\n"@,
        calendar is None ==> title_of(calendar) is None && attendees_of(calendar).len() == 0,
        calendar matches Some(c) ==> title_of(calendar) == text_view(c.title) && attendees_of(
            calendar,
        ) == views(c.attendees@),
{
    law_decimal_reads_back(duration_secs / 60);
    dec(duration_secs / 60)
}

/// The heading tells what the meeting was called, when it was and how long it took to the
/// second; and that the microphone was silent exactly where a meeting of more than a
/// minute holds less than three seconds of the user's speech.
pub proof fn law_heading_tells_the_meeting(
    started: CivilTime,
    title: Option<Seq<char>>,
    duration_secs: nat,
    mic_secs: nat,
) -> (r: (Seq<char>, Seq<char>))
    ensures
        row_of_digits(r.0) && row_of_digits(r.1),
        60 * number_written(r.0) + number_written(r.1) == duration_secs,
        number_written(r.1) < 60,
        heading(started, title, duration_secs, mic_secs) == "# "@ + (match title {
            Some(t) => t,
            None => "Meeting"@,
        }) + " — "@ + long_date(started) + "\n\n- Duration: "@ + r.0 + " min "@ + r.1
            + " sec\n- Transcribed locally by Lark\n"@ + (if duration_secs > 60 && mic_secs < 3 {
            SILENT_MIC_NOTE@
        } else {
            ""@
        }),
{
    law_decimal_reads_back(duration_secs / 60);
    law_decimal_reads_back(duration_secs % 60);
    (dec(duration_secs / 60), dec(duration_secs % 60))
}

/// Notes stand under their own heading, without the white space around them; a failure is
/// said there in its words; and where none were wanted there is nothing.
pub proof fn law_notes_stand_above_the_transcript(
    started: CivilTime,
    calendar: Option<&CalendarContext>,
    duration_secs: nat,
    mic_secs: nat,
    notes: Notes,
    body: Seq<char>,
)
    ensures
        document_text(started, calendar, duration_secs, mic_secs, notes, body) == front_matter(
            started,
            calendar,
            duration_secs,
        ) + heading(started, title_of(calendar), duration_secs, mic_secs) + (match notes {
            Ok(Some(n)) => "\n## Notes\n\n"@ + trim_spec(n@) + "\n"@,
            Ok(None) => ""@,
            Err(e) => "\n## Notes\n\n_Not generated: "@ + e@ + "_\n"@,
        }) + "\n## Transcript\n\n"@ + body,
{
}

} // verus!
