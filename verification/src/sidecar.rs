//! The crash-safe sidecar of a transcription.
//!
//! Each transcribed segment is appended as one JSON object per line the moment
//! it comes back, so that a run that dies half-way leaves everything before it
//! to be recovered.

use vstd::prelude::*;
use vstd::string::*;

use crate::order::{
    law_sort_is_stable, law_sort_keeps_items, law_sort_orders, sorted_by, stable_sort,
};
use crate::text::{
    dec, first_index, law_lines_end_at_line_feeds, lemma_first_index, lines, lines_spec, same_text,
    strip_suffix, views, without_end,
};
use crate::transcript::{line_text, lines_text, push_line, Line};

verus! {

/// The hexadecimal digit of `d`.
pub open spec fn hex_digit(d: int) -> char {
    if d < 10 {
        (48 + d) as char
    } else {
        (87 + d) as char
    }
}

/// `c` inside a JSON string: quotes, backslashes and control characters below
/// U+0020 are escaped.
pub open spec fn json_char(c: char) -> Seq<char> {
    let u = c as u32;
    if c == '"' {
        seq!['\\', '"']
    } else if c == '\\' {
        seq!['\\', '\\']
    } else if u == 0x08 {
        seq!['\\', 'b']
    } else if u == 0x09 {
        seq!['\\', 't']
    } else if u == 0x0a {
        seq!['\\', 'n']
    } else if u == 0x0c {
        seq!['\\', 'f']
    } else if u == 0x0d {
        seq!['\\', 'r']
    } else if u < 0x20 {
        seq!['\\', 'u', '0', '0', hex_digit(u as int / 16), hex_digit(u as int % 16)]
    } else {
        seq![c]
    }
}

/// The inside of the JSON string for `s`.
pub open spec fn json_chars(s: Seq<char>) -> Seq<char>
    decreases s.len(),
{
    if s.len() == 0 {
        Seq::empty()
    } else {
        json_chars(s.drop_last()) + json_char(s.last())
    }
}

/// The JSON string for `s`.
pub open spec fn json_string(s: Seq<char>) -> Seq<char> {
    seq!['"'] + json_chars(s) + seq!['"']
}

/// What one line of the sidecar records: first sample, speaker and words.
pub type Record = (u64, Seq<char>, Seq<char>);

/// The JSON object of a record.
pub open spec fn record_text(r: Record) -> Seq<char> {
    "{\"speaker\":"@ + json_string(r.1) + ",\"start\":"@ + dec(r.0 as nat) + ",\"text\":"@
        + json_string(r.2) + "}"@
}

/// A sidecar that holds the records, one line each.
pub open spec fn sidecar_text(rs: Seq<Record>) -> Seq<char>
    decreases rs.len(),
{
    if rs.len() == 0 {
        Seq::empty()
    } else {
        sidecar_text(rs.drop_last()) + record_text(rs.last()).push('\n')
    }
}

/// `serde_json::Value::to_string`, on an object with the three members of a
/// record: compact, with the members in the order of their names, and strings
/// escaped as `json_char` says.
#[verifier::external_body]
fn record_json(start: u64, speaker: &str, text: &str) -> (r: String)
    ensures
        r@ == record_text((start, speaker@, text@)),
{
    let mut members = serde_json::Map::new();
    members.insert(String::from("start"), serde_json::Value::from(start));
    members.insert(String::from("speaker"), serde_json::Value::from(speaker));
    members.insert(String::from("text"), serde_json::Value::from(text));
    serde_json::Value::Object(members).to_string()
}

/// A member of a JSON object: its name, its value where that is a number that
/// fits in 64 bits without a sign, and its value where that is a string.
pub type Member = (String, Option<u64>, Option<String>);

/// A member by its view.
pub open spec fn member_view(m: Member) -> (Seq<char>, Option<u64>, Option<Seq<char>>) {
    (
        m.0@,
        m.1,
        match m.2 {
            Some(t) => Some(t@),
            None => None,
        },
    )
}

/// Members by their views.
pub open spec fn members_view(ms: Seq<Member>) -> Seq<(Seq<char>, Option<u64>, Option<Seq<char>>)> {
    ms.map_values(|m: Member| member_view(m))
}

/// The members of the JSON object that `serde_json::from_str` reads from a text,
/// in the order of their names; nothing where the text is no JSON object.
pub uninterp spec fn object_members(
    text: Seq<char>,
) -> Option<Seq<(Seq<char>, Option<u64>, Option<Seq<char>>)>>;

/// The members of a record's object.
pub open spec fn record_members(r: Record) -> Seq<(Seq<char>, Option<u64>, Option<Seq<char>>)> {
    seq![
        ("speaker"@, None, Some(r.1)),
        ("start"@, Some(r.0), None),
        ("text"@, None, Some(r.2)),
    ]
}

/// `serde_json::from_str`, to a `Value` that is an object. Its result is a
/// function of the text, and reads back what `record_text` writes.
#[verifier::external_body]
fn read_object(text: &str) -> (r: Option<Vec<Member>>)
    ensures
        match r {
            Some(ms) => object_members(text@) == Some(members_view(ms@)),
            None => object_members(text@) is None,
        },
        forall|rec: Record|
            text@ == #[trigger] record_text(rec) ==> r is Some && members_view(r->0@)
                == record_members(rec),
{
    match serde_json::from_str::<serde_json::Value>(text).ok()? {
        serde_json::Value::Object(ms) => Some(
            ms.into_iter().map(|(k, v)| (k, v.as_u64(), v.as_str().map(String::from))).collect(),
        ),
        _ => None,
    }
}

/// Where the member called `name` stands, or nothing.
pub open spec fn member_at(
    ms: Seq<(Seq<char>, Option<u64>, Option<Seq<char>>)>,
    name: Seq<char>,
) -> Option<int>
    decreases ms.len(),
{
    if ms.len() == 0 {
        None
    } else {
        match member_at(ms.drop_last(), name) {
            Some(k) => Some(k),
            None => if ms.last().0 == name {
                Some(ms.len() - 1)
            } else {
                None
            },
        }
    }
}

/// The record that an object's members hold: a number called `start` and texts
/// called `speaker` and `text`.
pub open spec fn record_in(ms: Seq<(Seq<char>, Option<u64>, Option<Seq<char>>)>) -> Option<
    Record,
> {
    match (member_at(ms, "start"@), member_at(ms, "speaker"@), member_at(ms, "text"@)) {
        (Some(a), Some(b), Some(c)) => match (ms[a].1, ms[b].2, ms[c].2) {
            (Some(start), Some(speaker), Some(text)) => Some((start, speaker, text)),
            _ => None,
        },
        _ => None,
    }
}

/// The record on one line of a sidecar.
pub open spec fn line_record(line: Seq<char>) -> Option<Record> {
    match object_members(line) {
        Some(ms) => record_in(ms),
        None => None,
    }
}

/// The records on the lines that hold one.
pub open spec fn records_on(ls: Seq<Seq<char>>) -> Seq<Record>
    decreases ls.len(),
{
    if ls.len() == 0 {
        Seq::empty()
    } else {
        let earlier = records_on(ls.drop_last());
        match line_record(ls.last()) {
            Some(r) => earlier.push(r),
            None => earlier,
        }
    }
}

/// The line to append to the sidecar for one transcribed segment.
pub fn append_partial(start: usize, speaker: &str, text: &str) -> (r: String)
    ensures
        r@ == record_text((start as u64, speaker@, text@)).push('\n'),
{
    let mut line = record_json(start as u64, speaker, text);
    line.push('\n');
    line
}

fn find_member(ms: &Vec<Member>, name: &str) -> (r: Option<usize>)
    ensures
        match r {
            Some(k) => member_at(members_view(ms@), name@) == Some(k as int) && k < ms@.len(),
            None => member_at(members_view(ms@), name@) is None,
        },
{
    let mut found: Option<usize> = None;
    let mut i: usize = 0;
    while i < ms.len()
        invariant
            i <= ms@.len(),
            match found {
                Some(k) => member_at(members_view(ms@).take(i as int), name@) == Some(k as int) && k
                    < i,
                None => member_at(members_view(ms@).take(i as int), name@) is None,
            },
        decreases ms@.len() - i,
    {
        assert(members_view(ms@).take(i + 1).drop_last() == members_view(ms@).take(i as int));
        if found.is_none() && same_text(ms[i].0.as_str(), name) {
            found = Some(i);
        }
        i += 1;
    }
    assert(members_view(ms@).take(i as int) == members_view(ms@));
    found
}

/// A recovered segment: first sample, speaker and words.
pub type Recovered = (u64, String, String);

/// A recovered segment as a record.
pub open spec fn as_record(r: Recovered) -> Record {
    (r.0, r.1@, r.2@)
}

/// Recovered segments as records.
pub open spec fn as_records(rs: Seq<Recovered>) -> Seq<Record> {
    rs.map_values(|r: Recovered| as_record(r))
}

/// The record that an object's members hold.
pub fn read_record(ms: &Vec<Member>) -> (r: Option<Recovered>)
    ensures
        match r {
            Some(rec) => record_in(members_view(ms@)) == Some(as_record(rec)),
            None => record_in(members_view(ms@)) is None,
        },
{
    let a = find_member(ms, "start");
    let b = find_member(ms, "speaker");
    let c = find_member(ms, "text");
    match (a, b, c) {
        (Some(a), Some(b), Some(c)) => {
            assert(members_view(ms@)[a as int] == member_view(ms@[a as int]));
            assert(members_view(ms@)[b as int] == member_view(ms@[b as int]));
            assert(members_view(ms@)[c as int] == member_view(ms@[c as int]));
            match (ms[a].1, &ms[b].2, &ms[c].2) {
                (Some(start), Some(speaker), Some(text)) => Some(
                    (start, speaker.clone(), text.clone()),
                ),
                _ => None,
            }
        },
        _ => None,
    }
}

/// The records that a sidecar holds, on the lines that hold one.
pub open spec fn sidecar_records(raw: Seq<char>) -> Seq<Record> {
    records_on(lines_spec(raw))
}

proof fn lemma_record_reads_back(r: Record)
    ensures
        record_in(record_members(r)) == Some(r),
{
    reveal_strlit("speaker");
    reveal_strlit("start");
    reveal_strlit("text");
    reveal_with_fuel(member_at, 4);
    let ms = record_members(r);
    assert(ms.drop_last() == ms.take(2));
    assert(ms.take(2).drop_last() == ms.take(1));
    assert(ms.take(1).drop_last().len() == 0);
    assert("speaker"@.len() == 7 && "start"@.len() == 5 && "text"@.len() == 4);
    assert(member_at(ms.take(1), "start"@) is None);
    assert(member_at(ms.take(2), "start"@) == Some(1int));
    assert(member_at(ms.take(1), "speaker"@) == Some(0int));
    assert(member_at(ms.take(2), "text"@) is None);
}

proof fn lemma_one_line(c: char)
    ensures
        json_char(c).len() > 0,
        !json_char(c).contains('\n'),
{
    let s = json_char(c);
    assert forall|k: int| 0 <= k < s.len() implies s[k] != '\n' by {
        if s.len() == 6 {
            let u = c as u32;
            let (h, l) = (hex_digit(u as int / 16), hex_digit(u as int % 16));
            assert(h as u32 >= 48 && l as u32 >= 48);
        }
    }
}

proof fn lemma_json_chars_one_line(s: Seq<char>)
    ensures
        !json_chars(s).contains('\n'),
    decreases s.len(),
{
    if s.len() > 0 {
        lemma_json_chars_one_line(s.drop_last());
        lemma_one_line(s.last());
        let (a, b) = (json_chars(s.drop_last()), json_char(s.last()));
        assert forall|k: int| 0 <= k < (a + b).len() implies (a + b)[k] != '\n' by {
            if k < a.len() {
                assert(a.contains(a[k]));
            } else {
                assert(b.contains(b[k - a.len()]));
            }
        }
    }
}

proof fn lemma_dec_one_line(n: nat)
    ensures
        !dec(n).contains('\n'),
    decreases n,
{
    if n >= 10 {
        lemma_dec_one_line(n / 10);
        let a = dec(n / 10);
        assert forall|k: int| 0 <= k < dec(n).len() implies dec(n)[k] != '\n' by {
            if k < a.len() {
                assert(a.contains(a[k]));
            }
        }
    }
}

/// A record takes exactly one line: its text holds no line feed, whatever was
/// said, and does not end in a carriage return.
pub proof fn law_record_is_one_line(r: Record)
    ensures
        !record_text(r).contains('\n'),
        record_text(r).last() == '}',
{
    lemma_json_chars_one_line(r.1);
    lemma_json_chars_one_line(r.2);
    lemma_dec_one_line(r.0 as nat);
    reveal_strlit("{\"speaker\":");
    reveal_strlit(",\"start\":");
    reveal_strlit(",\"text\":");
    reveal_strlit("}");
    let (j1, d, j2) = (json_chars(r.1), dec(r.0 as nat), json_chars(r.2));
    let s1 = json_string(r.1);
    let s2 = json_string(r.2);
    assert forall|k: int| 0 <= k < s1.len() implies s1[k] != '\n' by {
        if 0 < k < s1.len() - 1 {
            assert(j1.contains(j1[k - 1]));
        }
    }
    assert forall|k: int| 0 <= k < s2.len() implies s2[k] != '\n' by {
        if 0 < k < s2.len() - 1 {
            assert(j2.contains(j2[k - 1]));
        }
    }
    assert forall|k: int| 0 <= k < d.len() implies d[k] != '\n' by {
        assert(d.contains(d[k]));
    }
}

proof fn lemma_first_line(line: Seq<char>, rest: Seq<char>)
    requires
        !line.contains('\n'),
        line.len() > 0,
        line.last() != '\r',
    ensures
        lines_spec(line.push('\n') + rest) == seq![line] + lines_spec(rest),
{
    let s = line.push('\n') + rest;
    lemma_first_index(s, '\n');
    let n = first_index(s, '\n') as int;
    assert(s[line.len() as int] == '\n');
    if n < line.len() {
        assert(line.contains(line[n]));
    }
    assert(s.take(n) == line);
    assert(s.skip(n + 1) == rest);
}

proof fn lemma_sidecar_lines(rs: Seq<Record>, tail: Seq<char>)
    ensures
        lines_spec(sidecar_text(rs) + tail) == rs.map_values(|r: Record| record_text(r))
            + lines_spec(tail),
    decreases rs.len(),
{
    let texts = rs.map_values(|r: Record| record_text(r));
    if rs.len() == 0 {
        assert(sidecar_text(rs) + tail == tail);
        assert(texts + lines_spec(tail) == lines_spec(tail));
    } else {
        let line = record_text(rs.last());
        lemma_sidecar_lines(rs.drop_last(), line.push('\n') + tail);
        law_record_is_one_line(rs.last());
        lemma_first_line(line, tail);
        assert(sidecar_text(rs) + tail == sidecar_text(rs.drop_last()) + (line.push('\n') + tail));
        let before = rs.drop_last().map_values(|r: Record| record_text(r));
        assert(before + (seq![line] + lines_spec(tail)) == texts + lines_spec(tail));
    }
}

proof fn lemma_records_on_join(a: Seq<Seq<char>>, b: Seq<Seq<char>>)
    ensures
        records_on(a + b) == records_on(a) + records_on(b),
    decreases b.len(),
{
    if b.len() == 0 {
        assert(a + b == a);
        assert(records_on(a) + records_on(b) == records_on(a));
    } else {
        lemma_records_on_join(a, b.drop_last());
        assert((a + b).drop_last() == a + b.drop_last());
        let (x, y) = (records_on(a), records_on(b.drop_last()));
        match line_record(b.last()) {
            Some(r) => assert((x + y).push(r) == x + y.push(r)),
            None => (),
        }
    }
}

proof fn lemma_records_on_texts(rs: Seq<Record>)
    requires
        forall|k: int| 0 <= k < rs.len() ==> line_record(record_text(#[trigger] rs[k])) == Some(rs[k]),
    ensures
        records_on(rs.map_values(|r: Record| record_text(r))) == rs,
    decreases rs.len(),
{
    if rs.len() > 0 {
        let texts = rs.map_values(|r: Record| record_text(r));
        assert forall|k: int| 0 <= k < rs.drop_last().len() implies line_record(
            record_text(#[trigger] rs.drop_last()[k]),
        ) == Some(rs.drop_last()[k]) by {
            assert(rs.drop_last()[k] == rs[k]);
        }
        lemma_records_on_texts(rs.drop_last());
        assert(texts.drop_last() == rs.drop_last().map_values(|r: Record| record_text(r)));
        assert(line_record(record_text(rs[rs.len() - 1])) == Some(rs.last()));
        assert(rs == rs.drop_last().push(rs.last()));
    }
}

/// The records that a sidecar holds. Lines that hold none are passed over, and
/// everything that was appended before a run died comes back: whatever the text
/// behind whole records may be, the records are recovered from the front.
pub fn recover_records(raw: &str) -> (r: Vec<Recovered>)
    ensures
        as_records(r@) == sidecar_records(raw@),
        forall|rs: Seq<Record>| raw@ == #[trigger] sidecar_text(rs) ==> as_records(r@) == rs,
        forall|rs: Seq<Record>, tail: Seq<char>|
            raw@ == #[trigger] (sidecar_text(rs) + tail) ==> as_records(r@) == rs
                + sidecar_records(tail),
{
    let all = lines(raw);
    let mut out: Vec<Recovered> = Vec::new();
    let mut i: usize = 0;
    while i < all.len()
        invariant
            i <= all@.len(),
            as_records(out@) == records_on(views(all@).take(i as int)),
            forall|k: int, rec: Record|
                0 <= k < i && #[trigger] views(all@)[k] == #[trigger] record_text(rec)
                    ==> line_record(views(all@)[k]) == Some(rec),
        decreases all@.len() - i,
    {
        let ghost seen = views(all@).take(i as int);
        assert(views(all@).take(i + 1) == seen.push(all@[i as int]@));
        assert(seen.push(all@[i as int]@).drop_last() == seen);
        let members = read_object(all[i].as_str());
        proof {
            assert forall|rec: Record| all@[i as int]@ == #[trigger] record_text(rec) implies
                line_record(all@[i as int]@) == Some(rec) by {
                lemma_record_reads_back(rec);
            }
        }
        match members {
            Some(ms) => match read_record(&ms) {
                Some(rec) => {
                    let ghost before = out@;
                    out.push(rec);
                    assert(as_records(out@) == as_records(before).push(as_record(rec)));
                },
                None => {},
            },
            None => {},
        }
        i += 1;
    }
    assert(views(all@).take(i as int) == views(all@));
    proof {
        assert forall|rs: Seq<Record>, tail: Seq<char>| raw@ == #[trigger] (sidecar_text(rs) + tail)
            implies as_records(out@) == rs + sidecar_records(tail) by {
            lemma_sidecar_lines(rs, tail);
            let texts = rs.map_values(|r: Record| record_text(r));
            assert forall|k: int| 0 <= k < rs.len() implies line_record(record_text(#[trigger] rs[k]))
                == Some(rs[k]) by {
                assert(views(all@)[k] == texts[k]);
            }
            lemma_records_on_texts(rs);
            lemma_records_on_join(texts, lines_spec(tail));
        }
        assert forall|rs: Seq<Record>| raw@ == #[trigger] sidecar_text(rs) implies as_records(out@)
            == rs by {
            let none = Seq::<char>::empty();
            assert(sidecar_text(rs) + none == raw@);
            assert(sidecar_records(none) == Seq::<Record>::empty());
            assert(rs + sidecar_records(none) == rs);
        }
    }
    out
}

/// A record as a spoken line.
pub open spec fn record_line(r: Record) -> Line {
    (r.0 as usize as nat, r.1, r.2)
}

/// Records as spoken lines.
pub open spec fn record_lines(rs: Seq<Record>) -> Seq<Line> {
    rs.map_values(|r: Record| record_line(r))
}

/// Whether a record's line comes before another's.
pub open spec fn record_before(a: Record, b: Record) -> bool {
    (a.0 as usize) < (b.0 as usize)
}

/// What a recovered transcript says of itself.
pub const RECOVERED_NOTE: &'static str = "- **Recovered** from a run that ended before the transcript was written. No AI notes, and the mic-bleed dedup pass did not run.\n\n## Transcript\n\n";

/// The transcript that recovered records make, in the order of their first
/// samples.
pub open spec fn recovered_text(stem: Seq<char>, rs: Seq<Record>) -> Seq<char> {
    "# Meeting — "@ + stem + "\n\n"@
        + RECOVERED_NOTE@
        + lines_text(record_lines(stable_sort(rs, |a: Record, b: Record| record_before(a, b))))
}

fn starts_before(a: &Recovered, b: &Recovered) -> (r: bool)
    ensures
        r == record_before(as_record(*a), as_record(*b)),
{
    let first: usize = a.0 as usize;
    let second: usize = b.0 as usize;
    first < second
}

/// The transcript that recovered records make; nothing where there are none.
pub fn recovered_transcript(stem: &str, records: Vec<Recovered>) -> (r: Option<String>)
    ensures
        match r {
            Some(text) => records@.len() > 0 && text@ == recovered_text(stem@, as_records(records@)),
            None => records@.len() == 0,
        },
{
    if records.len() == 0 {
        return None;
    }
    let ghost all = records@;
    let ghost model = |a: Recovered, b: Recovered| record_before(as_record(a), as_record(b));
    let sorted = sorted_by(records, starts_before, Ghost(model));
    let ghost order = |a: Record, b: Record| record_before(a, b);
    proof {
        crate::order::lemma_sort_map(all, |r: Recovered| as_record(r), model, order);
    }
    let ghost ls = record_lines(stable_sort(as_records(all), order));
    let mut out = "# Meeting — ".to_owned();
    out.append(stem);
    out.append("\n\n");
    out.append(RECOVERED_NOTE);
    let ghost head = out@;
    let mut i: usize = 0;
    assert(head + lines_text(ls.take(0)) == head);
    while i < sorted.len()
        invariant
            i <= sorted@.len(),
            ls == record_lines(as_records(sorted@)),
            out@ == head + lines_text(ls.take(i as int)),
        decreases sorted@.len() - i,
    {
        let ghost before = lines_text(ls.take(i as int));
        let r = &sorted[i];
        assert(ls.take(i + 1).drop_last() == ls.take(i as int));
        assert(ls[i as int] == record_line(as_record(*r)));
        push_line(&mut out, r.0 as usize, r.1.as_str(), r.2.as_str());
        assert(out@ == head + (before + line_text(ls[i as int])));
        i += 1;
    }
    assert(ls.take(i as int) == ls);
    Some(out)
}

/// What is left of a sidecar's file name without its ending; nothing for a file
/// that is no sidecar.
pub fn sidecar_stem(name: &str) -> (r: Option<String>)
    ensures
        match r {
            Some(stem) => ".partial.jsonl"@.is_suffix_of(name@) && stem@ == without_end(
                name@,
                ".partial.jsonl"@,
            ),
            None => !".partial.jsonl"@.is_suffix_of(name@),
        },
        forall|stem: Seq<char>|
            name@ == #[trigger] (stem + ".partial.jsonl"@) ==> r is Some && r->0@ == stem,
{
    let ending = ".partial.jsonl";
    proof {
        assert forall|stem: Seq<char>| name@ == #[trigger] (stem + ending@) implies
            ending@.is_suffix_of(name@) && without_end(name@, ending@) == stem by {
            assert(name@.subrange(name@.len() - ending@.len(), name@.len() as int) == ending@);
            assert(without_end(name@, ending@) == stem);
        }
    }
    match strip_suffix(name, ending) {
        Some(stem) => Some(stem.to_owned()),
        None => None,
    }
}

/// What to do with a sidecar that a run left behind.
pub enum Recovery {
    /// Leave it where it is.
    Leave,
    /// Remove it: its transcript was written.
    Sweep,
    /// Write this transcript, and then remove it.
    Write(String),
}

/// What to do with the sidecar of `stem`: `written` tells whether its transcript
/// exists, and `raw` is what it holds, where it could be read.
pub fn recover_orphaned_meetings(stem: &str, written: bool, raw: Option<&str>) -> (r: Recovery)
    ensures
        match r {
            Recovery::Sweep => written,
            Recovery::Leave => !written && (raw matches Some(t) ==> sidecar_records(t@).len() == 0),
            Recovery::Write(text) => !written && (raw matches Some(t) && sidecar_records(t@).len() > 0
                && text@ == recovered_text(stem@, sidecar_records(t@))),
        },
        forall|rs: Seq<Record>, tail: Seq<char>|
            !written && rs.len() > 0 && (raw matches Some(t) && t@ == #[trigger] (sidecar_text(rs)
                + tail)) ==> (r matches Recovery::Write(text) && text@ == recovered_text(
                stem@,
                rs + sidecar_records(tail),
            )),
{
    if written {
        return Recovery::Sweep;
    }
    match raw {
        Some(t) => {
            let records = recover_records(t);
            match recovered_transcript(stem, records) {
                Some(text) => Recovery::Write(text),
                None => Recovery::Leave,
            }
        },
        None => Recovery::Leave,
    }
}

/// A record more is its line more.
pub proof fn law_sidecar_grows_by_lines(rs: Seq<Record>, r: Record)
    ensures
        sidecar_text(Seq::<Record>::empty()) == Seq::<char>::empty(),
        sidecar_text(rs.push(r)) == sidecar_text(rs) + record_text(r) + seq!['\n'],
{
    assert(rs.push(r).drop_last() == rs);
    assert(sidecar_text(rs) + record_text(r).push('\n') == sidecar_text(rs) + record_text(r)
        + seq!['\n']);
}

/// Whether the member of this name stands at `k`, and none of the name before it.
pub open spec fn first_member(
    ms: Seq<(Seq<char>, Option<u64>, Option<Seq<char>>)>,
    name: Seq<char>,
    k: int,
) -> bool {
    0 <= k < ms.len() && ms[k].0 == name && forall|j: int|
        0 <= j < k ==> (#[trigger] ms[j]).0 != name
}

proof fn lemma_member(ms: Seq<(Seq<char>, Option<u64>, Option<Seq<char>>)>, name: Seq<char>)
    ensures
        match member_at(ms, name) {
            Some(k) => first_member(ms, name, k),
            None => forall|k: int| 0 <= k < ms.len() ==> (#[trigger] ms[k]).0 != name,
        },
    decreases ms.len(),
{
    if ms.len() > 0 {
        let head = ms.drop_last();
        lemma_member(head, name);
        assert forall|j: int| 0 <= j < head.len() implies #[trigger] ms[j] == head[j] by {}
    }
}

/// A record is read where its object has a number called `start` and texts called
/// `speaker` and `text`, and holds just those; where one is missing, or is something
/// else, there is no record.
pub proof fn law_records_are_read_by_name(
    ms: Seq<(Seq<char>, Option<u64>, Option<Seq<char>>)>,
    a: int,
    b: int,
    c: int,
)
    ensures
        first_member(ms, "start"@, a) && first_member(ms, "speaker"@, b) && first_member(
            ms,
            "text"@,
            c,
        ) ==> record_in(ms) == (match (ms[a].1, ms[b].2, ms[c].2) {
            (Some(start), Some(speaker), Some(text)) => Some((start, speaker, text)),
            _ => None,
        }),
        (forall|k: int| 0 <= k < ms.len() ==> (#[trigger] ms[k]).0 != "start"@) ==> record_in(ms)
            is None,
        (forall|k: int| 0 <= k < ms.len() ==> (#[trigger] ms[k]).0 != "speaker"@) ==> record_in(ms)
            is None,
        (forall|k: int| 0 <= k < ms.len() ==> (#[trigger] ms[k]).0 != "text"@) ==> record_in(ms)
            is None,
{
    lemma_member(ms, "start"@);
    lemma_member(ms, "speaker"@);
    lemma_member(ms, "text"@);
}

/// The lines that hold a record give it, in order; the others give nothing.
pub proof fn law_lines_give_their_records(ls: Seq<Seq<char>>, line: Seq<char>)
    ensures
        records_on(Seq::<Seq<char>>::empty()) == Seq::<Record>::empty(),
        records_on(ls.push(line)) == (match object_members(line) {
            Some(ms) => match record_in(ms) {
                Some(r) => records_on(ls).push(r),
                None => records_on(ls),
            },
            None => records_on(ls),
        }),
{
    assert(ls.push(line).drop_last() == ls);
}

/// A recovered transcript holds every record that came back, as a line with its start, its
/// speaker and its words, ordered by where they start; those that start together stand as
/// they were written. It says of itself that it was recovered.
pub proof fn law_recovered_transcript_holds_every_record(
    stem: Seq<char>,
    rs: Seq<Record>,
    start: u64,
) -> (lines: Seq<Record>)
    ensures
        recovered_text(stem, rs) == "# Meeting — "@ + stem + "\n\n"@ + RECOVERED_NOTE@
            + lines_text(lines.map_values(|r: Record| (r.0 as usize as nat, r.1, r.2))),
        lines.to_multiset() == rs.to_multiset(),
        forall|i: int, j: int|
            0 <= i < j < lines.len() ==> (#[trigger] lines[i]).0 as usize <= (
            #[trigger] lines[j]).0 as usize,
        lines.filter(|r: Record| r.0 as usize == start as usize) == rs.filter(
            |r: Record| r.0 as usize == start as usize,
        ),
{
    let order = |a: Record, b: Record| record_before(a, b);
    let lines = stable_sort(rs, order);
    law_sort_orders(rs, order);
    law_sort_keeps_items(rs, order);
    law_sort_is_stable(rs, order, |r: Record| r.0 as usize == start as usize);
    assert forall|i: int, j: int| 0 <= i < j < lines.len() implies (#[trigger] lines[i]).0 as usize
        <= (#[trigger] lines[j]).0 as usize by {
        assert(!order(lines[j], lines[i]));
    }
    assert(record_lines(lines) == lines.map_values(
        |r: Record| (r.0 as usize as nat, r.1, r.2),
    ));
    lines
}

/// A sidecar is read line by line: each line gives the record that it holds, or nothing, and
/// the rest is read whatever the line was. A carriage return before the line feed does not
/// belong to the line, and the last line may lack its line feed.
pub proof fn law_sidecar_is_read_line_by_line(line: Seq<char>, rest: Seq<char>)
    requires
        forall|i: int| 0 <= i < line.len() ==> #[trigger] line[i] != '\n',
    ensures
        ({
            let bare = if line.len() > 0 && line.last() == '\r' {
                line.drop_last()
            } else {
                line
            };
            sidecar_records(line.push('\n') + rest) == (match object_members(bare) {
                Some(ms) => match record_in(ms) {
                    Some(r) => seq![r],
                    None => Seq::empty(),
                },
                None => Seq::empty(),
            }) + sidecar_records(rest)
        }),
        line.len() > 0 ==> sidecar_records(line) == (match object_members(line) {
            Some(ms) => match record_in(ms) {
                Some(r) => seq![r],
                None => Seq::empty(),
            },
            None => Seq::empty(),
        }),
        sidecar_records(Seq::empty()) == Seq::<Record>::empty(),
{
    law_lines_end_at_line_feeds(line, rest);
    let bare = if line.len() > 0 && line.last() == '\r' {
        line.drop_last()
    } else {
        line
    };
    let none = Seq::<Seq<char>>::empty();
    lemma_records_on_join(seq![bare], lines_spec(rest));
    law_lines_give_their_records(none, bare);
    law_lines_give_their_records(none, line);
    assert(none.push(bare) == seq![bare]);
    assert(none.push(line) == seq![line]);
}

} // verus!
