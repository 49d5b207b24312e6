//! What happens once after launch: a warning when the disk is nearly full, and
//! the recovery of recordings whose transcription was interrupted.

use vstd::prelude::*;

use crate::folders::{extension, extension_of};
use crate::order::{
    in_order, law_sort_keeps_items, law_sort_orders, lemma_filter_source, lemma_sort_map, sorted_by,
    stable_sort,
};
use crate::text::{
    first_at, law_first_place_is_found, law_lines_end_at_line_feeds,
    law_trimming_takes_white_space, law_white_space_is_what_unicode_says,
    law_words_stand_between_white_space, lines, lines_spec, parse_u64, parsed_u64, same_text, trim,
    trim_spec, trim_start_spec, views, white_space, words, words_spec,
};
use crate::tray::HistoryEntry;

verus! {

/// Below this many free bytes, 2 GB, transcription may stall.
pub const LOW_DISK_BYTES: u64 = 2 * 1024 * 1024 * 1024;

/// How many recordings are recovered per launch at most.
pub const MAX_RECOVERIES_PER_LAUNCH: usize = 10;

/// Only recordings this young are recovered, in nanoseconds: 48 hours.
pub const RECOVERY_MAX_AGE_NS: i128 = 48 * 3600 * 1_000_000_000;

/// How long after launch the maintenance begins, in seconds.
pub const SETTLE_SECS: u64 = 30;

/// The free kilobytes in the output of `df -k`: the fourth column of its second
/// line.
pub open spec fn df_kilobytes(output: Seq<char>) -> Option<u64> {
    let ls = lines_spec(output);
    if ls.len() < 2 {
        None
    } else {
        let cols = words_spec(ls[1]);
        if cols.len() < 4 {
            None
        } else {
            parsed_u64(cols[3])
        }
    }
}

/// The free kilobytes in the output of `df -k`.
pub fn available_kilobytes(output: &str) -> (r: Option<u64>)
    ensures
        r == df_kilobytes(output@),
{
    let ls = lines(output);
    assert(views(ls@).len() == ls@.len());
    if ls.len() < 2 {
        return None;
    }
    assert(views(ls@)[1] == ls@[1]@);
    let cols = words(ls[1].as_str());
    assert(views(cols@).len() == cols@.len());
    if cols.len() < 4 {
        return None;
    }
    assert(views(cols@)[3] == cols@[3]@);
    parse_u64(cols[3].as_str())
}

/// The free bytes in the output of `df -k`.
pub fn free_bytes(output: &str) -> (r: Option<u64>)
    requires
        df_kilobytes(output@) matches Some(kb) ==> kb * 1024 <= u64::MAX,
    ensures
        match df_kilobytes(output@) {
            Some(kb) => r == Some((kb * 1024) as u64),
            None => r is None,
        },
{
    match available_kilobytes(output) {
        Some(kb) => Some(kb * 1024),
        None => None,
    }
}

/// The warning about a nearly full disk: how many megabytes are free.
pub fn low_disk_warning(free: u64) -> (r: Option<u64>)
    ensures
        r == if free < LOW_DISK_BYTES {
            Some((free / 1_048_576) as u64)
        } else {
            None
        },
        r is Some <==> free < 2 * 1024 * 1024 * 1024,
{
    if free < LOW_DISK_BYTES {
        Some(free / (1024 * 1024))
    } else {
        None
    }
}

/// The file names in the history.
pub open spec fn file_names(entries: Seq<HistoryEntry>) -> Seq<Seq<char>> {
    entries.map_values(|e: HistoryEntry| e.file_name@)
}

/// Whether some entry of the history has a transcript for the file.
pub open spec fn has_text(entries: Seq<HistoryEntry>, name: Seq<char>) -> bool {
    exists|k: int|
        0 <= k < entries.len() && (#[trigger] entries[k]).file_name@ == name && trim_spec(
            entries[k].transcription_text@,
        ).len() > 0
}

/// What the history knows of a file: the id of its first entry, and whether any
/// of its entries has a transcript.
pub open spec fn row_of(entries: Seq<HistoryEntry>, name: Seq<char>) -> Option<(i64, bool)> {
    if name.len() == 0 {
        None
    } else {
        match first_at(file_names(entries), name) {
            Some(k) => Some((entries[k].id, has_text(entries, name))),
            None => None,
        }
    }
}

/// What the history knows of a file.
pub fn history_row(entries: &Vec<HistoryEntry>, name: &str) -> (r: Option<(i64, bool)>)
    ensures
        r == row_of(entries@, name@),
{
    if name.is_empty() {
        return None;
    }
    let ghost names = file_names(entries@);
    let mut id: Option<i64> = None;
    let mut text = false;
    let mut i: usize = 0;
    while i < entries.len()
        invariant
            i <= entries@.len(),
            names == file_names(entries@),
            match (id, first_at(names.take(i as int), name@)) {
                (Some(v), Some(k)) => 0 <= k < i && entries@[k].id == v,
                (None, None) => true,
                _ => false,
            },
            text == exists|k: int|
                0 <= k < i && (#[trigger] entries@[k]).file_name@ == name@ && trim_spec(
                    entries@[k].transcription_text@,
                ).len() > 0,
        decreases entries@.len() - i,
    {
        assert(names.take(i + 1).drop_last() == names.take(i as int));
        assert(names.take(i + 1).last() == entries@[i as int].file_name@);
        let e = &entries[i];
        if same_text(e.file_name.as_str(), name) {
            if id.is_none() {
                id = Some(e.id);
            }
            if !trim(e.transcription_text.as_str()).is_empty() {
                text = true;
            }
        }
        i += 1;
    }
    assert(names.take(i as int) == names);
    match id {
        Some(v) => Some((v, text)),
        None => None,
    }
}

/// Whether a recording still needs its transcript.
pub open spec fn needs_recovery(entries: Seq<HistoryEntry>, name: Seq<char>) -> bool {
    !(row_of(entries, name) matches Some((_, text)) && text)
}

/// A file among the recordings: its name, and when it was last written, in
/// nanoseconds, where that is known.
pub struct FoundFile {
    pub name: String,
    pub modified_ns: Option<i128>,
}

/// A recording and when it was last written.
pub type RecordingView = (Seq<char>, int);

/// The recordings that are young enough.
pub open spec fn recent(files: Seq<FoundFile>, cutoff: Option<i128>) -> Seq<RecordingView>
    decreases files.len(),
{
    if files.len() == 0 {
        Seq::empty()
    } else {
        let before = recent(files.drop_last(), cutoff);
        let f = files.last();
        match f.modified_ns {
            Some(t) => if extension(f.name@) == Some("wav"@) && (cutoff matches Some(c) ==> t >= c) {
                before.push((f.name@, t as int))
            } else {
                before
            },
            None => before,
        }
    }
}

/// Whether a recording is younger than another.
pub open spec fn newer(a: RecordingView, b: RecordingView) -> bool {
    a.1 > b.1
}

/// The young recordings, the newest first.
pub open spec fn newest_first(files: Seq<FoundFile>, cutoff: Option<i128>) -> Seq<RecordingView> {
    stable_sort(recent(files, cutoff), |a: RecordingView, b: RecordingView| newer(a, b))
}

/// The recordings of the list that still need their transcripts.
pub open spec fn pending(entries: Seq<HistoryEntry>, list: Seq<RecordingView>) -> Seq<
    RecordingView,
> {
    list.filter(|r: RecordingView| needs_recovery(entries, r.0))
}

/// The recordings to recover, in order.
pub open spec fn to_recover(
    entries: Seq<HistoryEntry>,
    files: Seq<FoundFile>,
    cutoff: Option<i128>,
) -> Seq<Seq<char>> {
    pending(entries, newest_first(files, cutoff)).map_values(|r: RecordingView| r.0)
}

/// A recording and when it was last written.
pub type TimedFile = (String, i128);

/// A recording by its views.
pub open spec fn timed_view(f: TimedFile) -> RecordingView {
    (f.0@, f.1 as int)
}

/// Recordings by their views.
pub open spec fn timed_views(v: Seq<TimedFile>) -> Seq<RecordingView> {
    v.map_values(|f: TimedFile| timed_view(f))
}

fn is_newer(a: &TimedFile, b: &TimedFile) -> (r: bool)
    ensures
        r == newer(timed_view(*a), timed_view(*b)),
{
    a.1 > b.1
}

/// From when on recordings are young enough, at `now_ns`.
pub fn recovery_cutoff(now_ns: i128) -> (r: Option<i128>)
    ensures
        r == if now_ns - RECOVERY_MAX_AGE_NS >= i128::MIN {
            Some((now_ns - RECOVERY_MAX_AGE_NS) as i128)
        } else {
            None
        },
        r matches Some(from) ==> now_ns - from == 48 * 60 * 60 * 1_000_000_000,
{
    now_ns.checked_sub(RECOVERY_MAX_AGE_NS)
}

fn list_recent(files: &Vec<FoundFile>, cutoff: Option<i128>) -> (r: Vec<TimedFile>)
    ensures
        timed_views(r@) == recent(files@, cutoff),
{
    let mut out: Vec<TimedFile> = Vec::new();
    let mut i: usize = 0;
    assert(timed_views(out@) == recent(files@.take(0), cutoff));
    while i < files.len()
        invariant
            i <= files@.len(),
            timed_views(out@) == recent(files@.take(i as int), cutoff),
        decreases files@.len() - i,
    {
        assert(files@.take(i + 1).drop_last() == files@.take(i as int));
        let f = &files[i];
        let is_wav = match extension_of(f.name.as_str()) {
            Some(e) => same_text(e, "wav"),
            None => false,
        };
        if let Some(t) = f.modified_ns {
            let young = match cutoff {
                Some(c) => t >= c,
                None => true,
            };
            if is_wav && young {
                let ghost before = timed_views(out@);
                let file = (f.name.clone(), t);
                out.push(file);
                assert(timed_views(out@) == before.push(timed_view(file)));
            }
        }
        i += 1;
    }
    assert(files@.take(i as int) == files@);
    out
}

/// The recordings to recover: those of the last 48 hours that the history has no
/// transcript for, the newest first.
pub fn recovery_queue(
    entries: &Vec<HistoryEntry>,
    files: &Vec<FoundFile>,
    cutoff: Option<i128>,
) -> (r: Vec<String>)
    ensures
        views(r@) == to_recover(entries@, files@, cutoff),
{
    let found = list_recent(files, cutoff);
    let ghost all = found@;
    let ghost model = |a: TimedFile, b: TimedFile| newer(timed_view(a), timed_view(b));
    let ghost order = |a: RecordingView, b: RecordingView| newer(a, b);
    let sorted = sorted_by(found, is_newer, Ghost(model));
    proof {
        lemma_sort_map(all, |f: TimedFile| timed_view(f), model, order);
        reveal(Seq::filter);
    }
    let ghost list = timed_views(sorted@);
    let ghost keep = |r: RecordingView| needs_recovery(entries@, r.0);
    let ghost name = |r: RecordingView| r.0;
    let mut out: Vec<String> = Vec::new();
    let mut i: usize = 0;
    assert(views(out@) == list.take(0).filter(keep).map_values(name));
    while i < sorted.len()
        invariant
            i <= sorted@.len(),
            list == timed_views(sorted@),
            keep == (|r: RecordingView| needs_recovery(entries@, r.0)),
            name == (|r: RecordingView| r.0),
            views(out@) == list.take(i as int).filter(keep).map_values(name),
        decreases sorted@.len() - i,
    {
        proof {
            reveal(Seq::filter);
        }
        let ghost seen = list.take(i as int).filter(keep);
        assert(list.take(i + 1).drop_last() == list.take(i as int));
        assert(list.take(i + 1).last() == timed_view(sorted@[i as int]));
        let done = match history_row(entries, sorted[i].0.as_str()) {
            Some((_, text)) => text,
            None => false,
        };
        if !done {
            let ghost before = views(out@);
            out.push(sorted[i].0.clone());
            assert(views(out@) == before.push(sorted@[i as int].0@));
            assert(seen.push(list[i as int]).map_values(name) == seen.map_values(name).push(
                list[i as int].0,
            ));
        }
        i += 1;
    }
    assert(list.take(i as int) == list);
    out
}

/// The recovery of recordings under way.
pub struct RecoveryRun {
    pub queue: Vec<String>,
    /// Which recording of the queue comes next.
    pub next: usize,
    /// How many were recovered.
    pub recovered: usize,
}

/// What to do next in a recovery.
pub enum NextRecording {
    /// Nothing: all were tried, or enough were recovered.
    Done,
    /// Nothing: the disk is nearly full, and this one is left for the next launch.
    LowDisk(String),
    /// Transcribe this one.
    Try(String),
}

impl RecoveryRun {
    /// Whether the run is within its bounds.
    pub open spec fn valid(self) -> bool {
        self.next <= self.queue@.len() && self.recovered <= self.next && self.recovered
            <= MAX_RECOVERIES_PER_LAUNCH
    }

    pub fn new(queue: Vec<String>) -> (r: Self)
        ensures
            r.queue == queue,
            r.next == 0,
            r.recovered == 0,
            r.valid(),
    {
        RecoveryRun { queue, next: 0, recovered: 0 }
    }

    /// Whether the run is over.
    pub open spec fn over(self) -> bool {
        self.recovered >= MAX_RECOVERIES_PER_LAUNCH || self.next >= self.queue@.len()
    }

    /// The next recording to transcribe, with `free` bytes on the disk where that
    /// is known. A nearly full disk ends the run.
    pub fn next_recording(&mut self, free: Option<u64>) -> (r: NextRecording)
        requires
            old(self).valid(),
        ensures
            final(self).valid(),
            final(self).queue == old(self).queue,
            final(self).recovered == old(self).recovered,
            match r {
                NextRecording::Done => old(self).over() && final(self).next == old(self).next,
                NextRecording::LowDisk(name) => {
                    &&& !old(self).over()
                    &&& free matches Some(f) && f < LOW_DISK_BYTES
                    &&& name@ == old(self).queue@[old(self).next as int]@
                    &&& final(self).over()
                },
                NextRecording::Try(name) => {
                    &&& !old(self).over()
                    &&& !(free matches Some(f) && f < LOW_DISK_BYTES)
                    &&& name@ == old(self).queue@[old(self).next as int]@
                    &&& final(self).next == old(self).next + 1
                },
            },
            r is Done <==> old(self).recovered >= 10 || old(self).next >= old(self).queue@.len(),
            r is LowDisk ==> free is Some && free->0 < 2 * 1024 * 1024 * 1024,
            r is Try ==> free is None || free->0 >= 2 * 1024 * 1024 * 1024,
    {
        if self.recovered >= MAX_RECOVERIES_PER_LAUNCH || self.next >= self.queue.len() {
            return NextRecording::Done;
        }
        let name = self.queue[self.next].clone();
        if let Some(f) = free {
            if f < LOW_DISK_BYTES {
                self.next = self.queue.len();
                return NextRecording::LowDisk(name);
            }
        }
        self.next += 1;
        NextRecording::Try(name)
    }

    /// One more recording was recovered.
    pub fn count(&mut self)
        requires
            old(self).valid(),
            old(self).recovered < old(self).next,
            old(self).recovered < MAX_RECOVERIES_PER_LAUNCH,
        ensures
            final(self).valid(),
            final(self).recovered == old(self).recovered + 1,
            final(self).next == old(self).next,
            final(self).queue == old(self).queue,
    {
        self.recovered += 1;
    }
}

/// What to do with the text of a recovered recording.
#[derive(Clone, Copy, Debug, PartialEq, Eq, Structural)]
pub enum SaveAction {
    /// It is blank: nothing.
    Skip,
    /// Fill in the entry that an aborted run left.
    Update(i64),
    /// Make an entry for it.
    Create,
}

/// What to do with the text of a recovered recording, of which the history knows
/// `row`.
pub fn save_action(row: Option<(i64, bool)>, text: &str) -> (r: SaveAction)
    ensures
        r == if trim_spec(text@).len() == 0 {
            SaveAction::Skip
        } else {
            match row {
                Some((id, _)) => SaveAction::Update(id),
                None => SaveAction::Create,
            }
        },
{
    if trim(text).is_empty() {
        return SaveAction::Skip;
    }
    match row {
        Some((id, _)) => SaveAction::Update(id),
        None => SaveAction::Create,
    }
}

/// Recovery never touches a recording that has a transcript, and takes the newest
/// first.
pub proof fn law_recovery_order(
    entries: Seq<HistoryEntry>,
    files: Seq<FoundFile>,
    cutoff: Option<i128>,
)
    ensures
        ({
            let list = pending(entries, newest_first(files, cutoff));
            &&& forall|k: int| 0 <= k < list.len() ==> needs_recovery(entries, (#[trigger] list[k]).0)
            &&& in_order(list, |a: RecordingView, b: RecordingView| newer(a, b))
        }),
{
    broadcast use vstd::seq_lib::group_filter_ensures;

    let before = |a: RecordingView, b: RecordingView| newer(a, b);
    let all = newest_first(files, cutoff);
    let keep = |r: RecordingView| needs_recovery(entries, r.0);
    law_sort_orders(recent(files, cutoff), before);
    crate::order::lemma_filter_keeps_order(all, before, keep);
    let list = pending(entries, all);
    assert forall|k: int| 0 <= k < list.len() implies needs_recovery(
        entries,
        (#[trigger] list[k]).0,
    ) by {
        assert(keep(list[k]));
    }
}

/// The free space that `df -k` reports is the number in the fourth column of its second
/// line. The lines are those that no carriage return ends.
pub proof fn law_free_space_stands_in_the_fourth_column(
    head: Seq<char>,
    columns: Seq<Seq<char>>,
    last: Seq<char>,
    more: Seq<char>,
)
    requires
        forall|i: int| 0 <= i < head.len() ==> #[trigger] head[i] != '\n',
        columns.len() == 4,
        forall|k: int| 0 <= k < 4 ==> is_column(#[trigger] columns[k]),
        forall|i: int| 0 <= i < last.len() ==> #[trigger] last[i] != '\n' && last[i] != '\r',
    ensures
        df_kilobytes(
            head.push('\n') + (columns[0] + seq![' '] + columns[1] + seq![' '] + columns[2] + seq![
                ' ',
            ] + columns[3] + seq![' '] + last).push('\n') + more,
        ) == parsed_u64(columns[3]),
        df_kilobytes(head) is None,
{
    let (a, b, c, d) = (columns[0], columns[1], columns[2], columns[3]);
    let line = a + seq![' '] + b + seq![' '] + c + seq![' '] + d + seq![' '] + last;
    let output = head.push('\n') + line.push('\n') + more;
    let four = seq![' '] + last;
    let three = seq![' '] + (d + four);
    let two = seq![' '] + (c + three);
    let one = seq![' '] + (b + two);
    assert(line == a + one);
    lemma_white_lines();
    assert forall|i: int| 0 <= i < line.len() implies #[trigger] line[i] != '\n' by {
        lemma_line_goes_on(d, four);
        lemma_line_goes_on(c, three);
        lemma_line_goes_on(b, two);
        lemma_line_goes_on(a, one);
        assert(four[0] == ' ');
        assert forall|k: int| 0 <= k < four.len() implies #[trigger] four[k] != '\n' by {
            if k > 0 {
                assert(four[k] == last[k - 1]);
            }
        }
    }
    assert(line.last() == four.last());
    if last.len() > 0 {
        assert(four.last() == last[last.len() - 1]);
    }
    assert(output == head.push('\n') + (line.push('\n') + more));
    law_lines_end_at_line_feeds(head, line.push('\n') + more);
    law_lines_end_at_line_feeds(line, more);
    assert(lines_spec(output)[1] == line);
    lemma_column(a, one, b + two);
    lemma_column(b, two, c + three);
    lemma_column(c, three, d + four);
    lemma_column(d, four, last);
    let rest = words_spec(four);
    assert(words_spec(line) == seq![a] + (seq![b] + (seq![c] + (seq![d] + rest))));
    assert(words_spec(line)[3] == d);
    if head.len() > 0 {
        assert(lines_spec(head).len() == 1);
    }
}

/// Whether a text can be a column: it is not empty and holds no white space.
pub open spec fn is_column(s: Seq<char>) -> bool {
    s.len() > 0 && forall|i: int| 0 <= i < s.len() ==> !white_space(#[trigger] s[i])
}

proof fn lemma_white_lines()
    ensures
        white_space('\n'),
        white_space(' '),
{
    law_white_space_is_what_unicode_says('\n');
    law_white_space_is_what_unicode_says(' ');
}

proof fn lemma_line_goes_on(column: Seq<char>, rest: Seq<char>)
    requires
        is_column(column),
        forall|k: int| 0 <= k < rest.len() ==> #[trigger] rest[k] != '\n',
    ensures
        ({
            let line = seq![' '] + (column + rest);
            forall|k: int| 0 <= k < line.len() ==> #[trigger] line[k] != '\n'
        }),
        ({
            let line = column + rest;
            forall|k: int| 0 <= k < line.len() ==> #[trigger] line[k] != '\n'
        }),
{
    lemma_white_lines();
    let bare = column + rest;
    assert forall|k: int| 0 <= k < bare.len() implies #[trigger] bare[k] != '\n' by {
        if k < column.len() {
            assert(!white_space(column[k]));
            assert(bare[k] == column[k]);
        } else {
            assert(bare[k] == rest[k - column.len()]);
        }
    }
    let line = seq![' '] + bare;
    assert forall|k: int| 0 <= k < line.len() implies #[trigger] line[k] != '\n' by {
        if k > 0 {
            assert(line[k] == bare[k - 1]);
        }
    }
}

proof fn lemma_column(column: Seq<char>, after: Seq<char>, rest: Seq<char>)
    requires
        is_column(column),
        after == seq![' '] + rest,
    ensures
        words_spec(column + after) == seq![column] + words_spec(after),
        words_spec(after) == words_spec(rest),
{
    lemma_white_lines();
    assert(after[0] == ' ');
    law_words_stand_between_white_space(column, after, ' ');
    assert(after.drop_first() == rest);
    assert(trim_start_spec(after) == trim_start_spec(rest));
}

/// The history knows a file by its first entry, and has a transcript of it where any entry
/// of the file holds anything but white space.
pub proof fn law_history_knows_a_file(entries: Seq<HistoryEntry>, name: Seq<char>, k: int)
    requires
        name.len() > 0,
        0 <= k <= entries.len(),
        forall|j: int| 0 <= j < k ==> (#[trigger] entries[j]).file_name@ != name,
        k < entries.len() ==> entries[k].file_name@ == name,
    ensures
        k == entries.len() ==> row_of(entries, name) is None,
        k < entries.len() ==> row_of(entries, name) == Some(
            (entries[k].id, is_written_down(entries, name)),
        ),
        needs_recovery(entries, name) <==> !is_written_down(entries, name),
{
    let names = file_names(entries);
    law_first_place_is_found(names, name);
    assert forall|j: int| 0 <= j < entries.len() implies #[trigger] names[j]
        == entries[j].file_name@ by {}
    match first_at(names, name) {
        Some(at) => {
            assert(names[at] == entries[at].file_name@);
            if k < at {
                assert(names[k] != name);
            }
        },
        None => {
            if k < entries.len() {
                assert(names[k] != name);
            }
        },
    }
    assert forall|j: int| 0 <= j < entries.len() implies (trim_spec(
        (#[trigger] entries[j]).transcription_text@,
    ).len() > 0 <==> says_something(entries[j].transcription_text@)) by {
        lemma_says_something(entries[j].transcription_text@);
    }
    if has_text(entries, name) {
        let j = choose|j: int|
            0 <= j < entries.len() && (#[trigger] entries[j]).file_name@ == name && trim_spec(
                entries[j].transcription_text@,
            ).len() > 0;
        assert(says_something(entries[j].transcription_text@));
    }
    if is_written_down(entries, name) {
        let j = choose|j: int|
            0 <= j < entries.len() && (#[trigger] entries[j]).file_name@ == name && says_something(
                entries[j].transcription_text@,
            );
        assert(trim_spec(entries[j].transcription_text@).len() > 0);
    }
}

/// Whether a text holds anything but white space.
pub open spec fn says_something(s: Seq<char>) -> bool {
    exists|i: int| 0 <= i < s.len() && !white_space(#[trigger] s[i])
}

/// Whether an entry of the history says something for the file.
pub open spec fn is_written_down(entries: Seq<HistoryEntry>, name: Seq<char>) -> bool {
    exists|j: int|
        0 <= j < entries.len() && (#[trigger] entries[j]).file_name@ == name && says_something(
            entries[j].transcription_text@,
        )
}

proof fn lemma_says_something(s: Seq<char>)
    ensures
        trim_spec(s).len() > 0 <==> says_something(s),
{
    let (a, b) = law_trimming_takes_white_space(s);
    let t = trim_spec(s);
    if t.len() > 0 {
        assert(s[a.len() as int] == t[0]);
    } else {
        assert forall|i: int| 0 <= i < s.len() implies white_space(#[trigger] s[i]) by {
            if i < a.len() {
                assert(s[i] == a[i]);
            } else {
                assert(s[i] == b[i - a.len()]);
            }
        }
    }
}

/// Whether a file is a recording written under that name at that time, and lately enough.
pub open spec fn is_young_recording(
    f: FoundFile,
    name: Seq<char>,
    written_ns: int,
    cutoff: Option<i128>,
) -> bool {
    &&& f.name@ == name
    &&& extension(name) == Some(seq!['w', 'a', 'v'])
    &&& f.modified_ns is Some && f.modified_ns->0 == written_ns
    &&& cutoff is Some ==> written_ns >= cutoff->0
}

proof fn lemma_recent(files: Seq<FoundFile>, cutoff: Option<i128>, name: Seq<char>, written_ns: int)
    ensures
        recent(files, cutoff).contains((name, written_ns)) <==> exists|k: int|
            0 <= k < files.len() && is_young_recording(
                #[trigger] files[k],
                name,
                written_ns,
                cutoff,
            ),
    decreases files.len(),
{
    reveal_strlit("wav");
    assert("wav"@ == seq!['w', 'a', 'v']);
    let all = recent(files, cutoff);
    let r = (name, written_ns);
    if files.len() > 0 {
        let earlier = files.drop_last();
        let before = recent(earlier, cutoff);
        let f = files.last();
        lemma_recent(earlier, cutoff, name, written_ns);
        assert(files[files.len() - 1] == f);
        if before.contains(r) {
            let k = choose|k: int|
                0 <= k < earlier.len() && is_young_recording(
                    #[trigger] earlier[k],
                    name,
                    written_ns,
                    cutoff,
                );
            assert(is_young_recording(files[k], name, written_ns, cutoff));
            let i = choose|i: int| 0 <= i < before.len() && before[i] == r;
            assert(all[i] == r);
        }
        if is_young_recording(f, name, written_ns, cutoff) {
            assert(all.last() == r);
        }
        if all.contains(r) {
            let i = choose|i: int| 0 <= i < all.len() && all[i] == r;
            if i < before.len() {
                assert(before[i] == r);
            } else {
                assert(is_young_recording(files[files.len() - 1], name, written_ns, cutoff));
            }
        }
        if exists|k: int|
            0 <= k < files.len() && is_young_recording(
                #[trigger] files[k],
                name,
                written_ns,
                cutoff,
            ) {
            let k = choose|k: int|
                0 <= k < files.len() && is_young_recording(
                    #[trigger] files[k],
                    name,
                    written_ns,
                    cutoff,
                );
            if k < earlier.len() {
                assert(earlier[k] == files[k]);
            }
        }
    }
}

/// The recordings to recover are those written lately enough of which no entry says
/// anything, and no others; they come by the time they were written, the latest first.
pub proof fn law_recordings_without_a_transcript_are_recovered(
    entries: Seq<HistoryEntry>,
    files: Seq<FoundFile>,
    cutoff: Option<i128>,
    name: Seq<char>,
)
    ensures
        to_recover(entries, files, cutoff).contains(name) <==> !is_written_down(entries, name)
            && exists|k: int, written_ns: int|
            0 <= k < files.len() && #[trigger] is_young_recording(
                files[k],
                name,
                written_ns,
                cutoff,
            ),
        ({
            let list = pending(entries, newest_first(files, cutoff));
            &&& to_recover(entries, files, cutoff).len() == list.len()
            &&& forall|i: int|
                0 <= i < list.len() ==> (#[trigger] list[i]).0 == to_recover(
                    entries,
                    files,
                    cutoff,
                )[i]
            &&& forall|i: int, j: int|
                0 <= i < j < list.len() ==> (#[trigger] list[i]).1 >= (#[trigger] list[j]).1
        }),
{
    broadcast use vstd::seq_lib::group_filter_ensures;
    broadcast use vstd::seq_lib::group_to_multiset_ensures;

    let order = |a: RecordingView, b: RecordingView| newer(a, b);
    let keep = |r: RecordingView| needs_recovery(entries, r.0);
    let found = recent(files, cutoff);
    let sorted = newest_first(files, cutoff);
    let list = pending(entries, sorted);
    let all = to_recover(entries, files, cutoff);
    law_sort_keeps_items(found, order);
    law_recovery_order(entries, files, cutoff);
    assert forall|i: int, j: int| 0 <= i < j < list.len() implies (#[trigger] list[i]).1 >= (
    #[trigger] list[j]).1 by {
        assert(!order(list[j], list[i]));
    }
    assert forall|r: RecordingView| found.contains(r) <==> #[trigger] sorted.contains(r) by {
        assert(found.contains(r) <==> found.to_multiset().count(r) > 0);
        assert(sorted.contains(r) <==> sorted.to_multiset().count(r) > 0);
    }
    if all.contains(name) {
        let i = choose|i: int| 0 <= i < all.len() && all[i] == name;
        let r = list[i];
        let at = lemma_filter_source(sorted, keep, i);
        assert(sorted[at] == r);
        assert(sorted.contains(r));
        lemma_recent(files, cutoff, name, r.1);
        let k = choose|k: int|
            0 <= k < files.len() && is_young_recording(#[trigger] files[k], name, r.1, cutoff);
        assert(is_young_recording(files[k], name, r.1, cutoff));
        lemma_extension_needs_a_name(name);
        lemma_known(entries, name);
    }
    if !is_written_down(entries, name) && exists|k: int, written_ns: int|
        0 <= k < files.len() && #[trigger] is_young_recording(files[k], name, written_ns, cutoff) {
        let (k, written_ns) = choose|k: int, written_ns: int|
            0 <= k < files.len() && #[trigger] is_young_recording(
                files[k],
                name,
                written_ns,
                cutoff,
            );
        let r = (name, written_ns);
        lemma_recent(files, cutoff, name, written_ns);
        assert(is_young_recording(files[k], name, written_ns, cutoff));
        lemma_extension_needs_a_name(name);
        lemma_known(entries, name);
        assert(sorted.contains(r) && keep(r));
        assert(list.contains(r));
        let i = choose|i: int| 0 <= i < list.len() && list[i] == r;
        assert(all[i] == name);
    }
}

proof fn lemma_extension_needs_a_name(name: Seq<char>)
    requires
        extension(name) is Some,
    ensures
        name.len() > 0,
{
}

proof fn lemma_known(entries: Seq<HistoryEntry>, name: Seq<char>)
    requires
        name.len() > 0,
    ensures
        needs_recovery(entries, name) <==> !is_written_down(entries, name),
{
    let names = file_names(entries);
    law_first_place_is_found(names, name);
    let k = match first_at(names, name) {
        Some(at) => at,
        None => entries.len() as int,
    };
    assert forall|j: int| 0 <= j < k implies (#[trigger] entries[j]).file_name@ != name by {
        assert(names[j] != name);
    }
    if k < entries.len() {
        assert(names[k] == name);
    }
    law_history_knows_a_file(entries, name, k);
}

} // verus!
