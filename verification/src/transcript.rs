//! The text of a transcript: file names and spoken lines.

use vstd::prelude::*;
use vstd::string::*;

use crate::bleed::Entry;
use crate::segments::SAMPLE_RATE;
use crate::text::{
    chars_of, control, decimal_pad2, is_control, is_white_space, join, join_spec,
    law_joining_puts_separators_between, law_padded_decimal_reads_back,
    law_words_stand_between_white_space, lemma_joined_words, lemma_word_len, lemma_words,
    number_written, only, pad2, row_of_digits, single_spaced, trim_spec, trim_start_spec,
    white_space, word_len, words, words_spec,
};

verus! {

/// Whether a file system or a shell could choke on `c` in a file name.
pub open spec fn unsafe_in_name(c: char) -> bool {
    c == '/' || c == '\\' || c == ':' || c == '*' || c == '?' || c == '"' || c == '<' || c == '>'
        || c == '|' || c == '\n' || c == '\r' || c == '\t' || control(c)
}

/// `s` with a space for each character that is unsafe in a file name.
pub open spec fn cleaned(s: Seq<char>) -> Seq<char> {
    s.map_values(
        |c: char|
            if unsafe_in_name(c) {
                ' '
            } else {
                c
            },
    )
}

/// Whether `c` may not stand at either end of a label: a leading dot hides the file, a
/// trailing one confuses the parsing of extensions, and white space is not seen.
pub open spec fn bad_at_ends(c: char) -> bool {
    c == '.' || white_space(c)
}

/// `s` without dots and white space at its beginning.
pub open spec fn stripped_start(s: Seq<char>) -> Seq<char>
    decreases s.len(),
{
    if s.len() > 0 && bad_at_ends(s[0]) {
        stripped_start(s.drop_first())
    } else {
        s
    }
}

/// `s` without dots and white space at its end.
pub open spec fn stripped_end(s: Seq<char>) -> Seq<char>
    decreases s.len(),
{
    if s.len() > 0 && bad_at_ends(s.last()) {
        stripped_end(s.drop_last())
    } else {
        s
    }
}

/// `s` without dots and white space at its ends.
pub open spec fn stripped(s: Seq<char>) -> Seq<char> {
    stripped_end(stripped_start(s))
}

/// The words of a title, unsafe characters left out, with single spaces between.
pub open spec fn collapsed(title: Seq<char>) -> Seq<char> {
    join_spec(words_spec(cleaned(title)), " "@)
}

/// The first `n` characters of `s`, or all of them.
pub open spec fn at_most(s: Seq<char>, n: nat) -> Seq<char> {
    if s.len() <= n {
        s
    } else {
        s.take(n as int)
    }
}

/// The longest label in a file name, in characters.
pub const MAX_LABEL_CHARS: usize = 60;

/// A calendar title made fit for a file name.
pub open spec fn file_label(title: Seq<char>) -> Seq<char> {
    stripped(at_most(stripped(collapsed(title)), MAX_LABEL_CHARS as nat))
}

fn is_unsafe_in_name(c: char) -> (r: bool)
    ensures
        r == unsafe_in_name(c),
{
    c == '/' || c == '\\' || c == ':' || c == '*' || c == '?' || c == '"' || c == '<' || c == '>'
        || c == '|' || c == '\n' || c == '\r' || c == '\t' || is_control(c)
}

fn clean(title: &str) -> (r: String)
    ensures
        r@ == cleaned(title@),
{
    let v = chars_of(title);
    let mut out = String::new();
    let mut i: usize = 0;
    while i < v.len()
        invariant
            i <= v@.len(),
            v@ == title@,
            out@ == cleaned(title@.take(i as int)),
        decreases v@.len() - i,
    {
        let c = if is_unsafe_in_name(v[i]) {
            ' '
        } else {
            v[i]
        };
        out.push(c);
        assert(cleaned(title@.take(i + 1)) == cleaned(title@.take(i as int)).push(c));
        i += 1;
    }
    assert(title@.take(i as int) == title@);
    out
}

fn is_bad_at_ends(c: char) -> (r: bool)
    ensures
        r == bad_at_ends(c),
{
    c == '.' || is_white_space(c)
}

fn strip(s: &str) -> (r: &str)
    ensures
        r@ == stripped(s@),
{
    let v = chars_of(s);
    let mut from: usize = 0;
    assert(v@.skip(0) == v@);
    while from < v.len() && is_bad_at_ends(v[from])
        invariant
            from <= v@.len(),
            stripped_start(v@) == stripped_start(v@.skip(from as int)),
        decreases v@.len() - from,
    {
        assert(v@.skip(from as int).drop_first() == v@.skip(from + 1));
        from += 1;
    }
    let ghost rest = v@.skip(from as int);
    let mut to: usize = v.len();
    assert(v@.subrange(from as int, to as int) == rest);
    while to > from && is_bad_at_ends(v[to - 1])
        invariant
            from <= to <= v@.len(),
            stripped_end(rest) == stripped_end(v@.subrange(from as int, to as int)),
        decreases to,
    {
        assert(v@.subrange(from as int, to as int).drop_last() == v@.subrange(from as int, to - 1));
        to -= 1;
    }
    s.substring_char(from, to)
}

/// Makes a calendar title fit for a file name: without the characters that a
/// file system or a shell would choke on, with white space collapsed, without
/// dots or white space at its ends, and short enough for a folder listing.
pub fn sanitise_for_filename(title: &str) -> (r: String)
    ensures
        r@ == file_label(title@),
{
    let safe = clean(title);
    let parts = words(safe.as_str());
    let line = join(&parts, " ");
    let bare = strip(line.as_str());
    let n: usize = bare.unicode_len();
    let head = if n <= MAX_LABEL_CHARS {
        bare
    } else {
        bare.substring_char(0, MAX_LABEL_CHARS)
    };
    assert(head@ == at_most(bare@, MAX_LABEL_CHARS as nat));
    strip(head).to_owned()
}

proof fn lemma_stripped_start(s: Seq<char>) -> (a: int)
    ensures
        0 <= a <= s.len(),
        stripped_start(s) == s.skip(a),
        a < s.len() ==> !bad_at_ends(s[a]),
    decreases s.len(),
{
    if s.len() > 0 && bad_at_ends(s[0]) {
        let a = lemma_stripped_start(s.drop_first());
        assert(s.drop_first().skip(a) == s.skip(a + 1));
        a + 1
    } else {
        assert(s.skip(0) == s);
        0
    }
}

proof fn lemma_stripped_end(s: Seq<char>) -> (b: int)
    ensures
        0 <= b <= s.len(),
        stripped_end(s) == s.take(b),
        b > 0 ==> !bad_at_ends(s[b - 1]),
    decreases s.len(),
{
    if s.len() > 0 && bad_at_ends(s.last()) {
        let b = lemma_stripped_end(s.drop_last());
        assert(s.drop_last().take(b) == s.take(b));
        b
    } else {
        assert(s.take(s.len() as int) == s);
        s.len() as int
    }
}

/// What is stripped is a piece of the text that has nothing bad at its ends.
proof fn lemma_stripped(s: Seq<char>) -> (r: (int, int))
    ensures
        0 <= r.0 <= r.1 <= s.len(),
        stripped(s) == s.subrange(r.0, r.1),
        stripped(s).len() > 0 ==> !bad_at_ends(stripped(s)[0]) && !bad_at_ends(stripped(s).last()),
{
    let a = lemma_stripped_start(s);
    let b = lemma_stripped_end(s.skip(a));
    assert(stripped(s) == s.subrange(a, a + b));
    (a, a + b)
}

/// Whether `s` is safe in a file name, with single spaces between its words.
spec fn safe_line(s: Seq<char>) -> bool {
    only(s, |c: char| !unsafe_in_name(c)) && single_spaced(s)
}

proof fn lemma_collapsed(title: Seq<char>)
    ensures
        safe_line(collapsed(title)),
{
    let safe = |c: char| !unsafe_in_name(c);
    lemma_words(cleaned(title), safe);
    reveal_strlit(" ");
    assert(" "@ == seq![' ']);
    lemma_joined_words(words_spec(cleaned(title)), safe);
}

proof fn lemma_safe_piece(s: Seq<char>, a: int, b: int)
    requires
        safe_line(s),
        0 <= a <= b <= s.len(),
    ensures
        safe_line(s.subrange(a, b)),
{
    let p = s.subrange(a, b);
    assert forall|i: int| 0 <= i < p.len() implies !unsafe_in_name(#[trigger] p[i]) by {
        assert(p[i] == s[a + i]);
    }
    assert forall|i: int| 0 <= i < p.len() - 1 && white_space(#[trigger] p[i]) implies !white_space(
        p[i + 1],
    ) by {
        assert(p[i] == s[a + i] && p[i + 1] == s[a + i + 1]);
    }
}

proof fn lemma_nothing_to_trim(s: Seq<char>)
    requires
        s.len() > 0 ==> !white_space(s[0]) && !white_space(s.last()),
    ensures
        trim_spec(s) == s,
{
}

/// A file label has at most 60 characters, none of them unsafe in a file name,
/// no white space at its ends, and single spaces between its words.
pub proof fn law_label_is_safe(title: Seq<char>)
    ensures
        file_label(title).len() <= MAX_LABEL_CHARS,
        forall|i: int| 0 <= i < file_label(title).len() ==> !unsafe_in_name(
            #[trigger] file_label(title)[i],
        ),
        trim_spec(file_label(title)) == file_label(title),
        single_spaced(file_label(title)),
{
    let j = collapsed(title);
    lemma_collapsed(title);
    let r = lemma_stripped(j);
    lemma_safe_piece(j, r.0, r.1);
    let bare = stripped(j);
    let head = at_most(bare, MAX_LABEL_CHARS as nat);
    assert(head == bare.subrange(0, head.len() as int));
    lemma_safe_piece(bare, 0, head.len() as int);
    let q = lemma_stripped(head);
    lemma_safe_piece(head, q.0, q.1);
    lemma_nothing_to_trim(file_label(title));
}

/// Whatever the title, its label neither begins nor ends with a dot.
pub proof fn law_label_has_no_dot_at_its_ends(title: Seq<char>)
    ensures
        file_label(title).len() > 0 ==> file_label(title)[0] != '.' && file_label(title).last()
            != '.',
{
    let j = collapsed(title);
    lemma_stripped(at_most(stripped(j), MAX_LABEL_CHARS as nat));
}

/// What a spoken line holds: its first sample, its speaker and its words.
pub type Line = (nat, Seq<char>, Seq<char>);

/// `**[03:07] Kole:** Hello`, and an empty line behind it.
pub open spec fn line_text(l: Line) -> Seq<char> {
    let secs = l.0 / SAMPLE_RATE as nat;
    "**["@ + pad2(secs / 60) + ":"@ + pad2(secs % 60) + "] "@ + l.1 + ":** "@ + l.2 + "\n\n"@
}

/// The lines, one behind the other.
pub open spec fn lines_text(ls: Seq<Line>) -> Seq<char>
    decreases ls.len(),
{
    if ls.len() == 0 {
        Seq::empty()
    } else {
        lines_text(ls.drop_last()) + line_text(ls.last())
    }
}

/// The line of a transcribed segment.
pub open spec fn line_of(e: Entry) -> Line {
    (e.0 as nat, e.1@, e.2@)
}

/// The lines of transcribed segments.
pub open spec fn lines_of(es: Seq<Entry>) -> Seq<Line> {
    es.map_values(|e: Entry| line_of(e))
}

/// The body of a transcript; without any speech it says so.
pub open spec fn body_text(es: Seq<Entry>) -> Seq<char> {
    if es.len() == 0 {
        "_No speech detected on either track._\n"@
    } else {
        lines_text(lines_of(es))
    }
}

/// Appends one spoken line to `out`.
pub fn push_line(out: &mut String, start: usize, speaker: &str, text: &str)
    ensures
        final(out)@ == old(out)@ + line_text((start as nat, speaker@, text@)),
{
    let secs: usize = start / SAMPLE_RATE;
    let minutes = decimal_pad2((secs / 60) as u64);
    let seconds = decimal_pad2((secs % 60) as u64);
    let ghost before = out@;
    out.append("**[");
    out.append(minutes.as_str());
    out.append(":");
    out.append(seconds.as_str());
    out.append("] ");
    out.append(speaker);
    out.append(":** ");
    out.append(text);
    out.append("\n\n");
    assert(out@ == before + line_text((start as nat, speaker@, text@)));
}

/// The body of a transcript.
pub fn render_transcript(entries: &[Entry]) -> (r: String)
    ensures
        r@ == body_text(entries@),
{
    if entries.len() == 0 {
        return "_No speech detected on either track._\n".to_owned();
    }
    let mut out = String::new();
    let mut i: usize = 0;
    assert(lines_of(entries@).take(0) == Seq::<Line>::empty());
    while i < entries.len()
        invariant
            i <= entries@.len(),
            out@ == lines_text(lines_of(entries@).take(i as int)),
        decreases entries@.len() - i,
    {
        let e = &entries[i];
        assert(lines_of(entries@).take(i + 1).drop_last() == lines_of(entries@).take(i as int));
        push_line(&mut out, e.0, e.1, e.2.as_str());
        i += 1;
    }
    assert(lines_of(entries@).take(i as int) == lines_of(entries@));
    out
}

/// The stamp of a line reads back as its time: the number before the colon, in minutes,
/// and the two digits behind it, in seconds below sixty, make up the time of its first
/// sample. Speaker and words follow as they are.
pub proof fn law_stamp_reads_back(l: Line) -> (r: (Seq<char>, Seq<char>))
    ensures
        line_text(l) == "**["@ + r.0 + ":"@ + r.1 + "] "@ + l.1 + ":** "@ + l.2 + "\n\n"@,
        row_of_digits(r.0) && row_of_digits(r.1),
        60 * number_written(r.0) + number_written(r.1) == l.0 / 16_000,
        number_written(r.1) < 60,
        r.1.len() == 2,
        r.0.len() >= 2,
        r.0.len() > 2 ==> r.0[0] != '0',
{
    let secs = l.0 / 16_000;
    law_padded_decimal_reads_back(secs / 60);
    law_padded_decimal_reads_back(secs % 60);
    assert(60 * (secs / 60) + secs % 60 == secs);
    (pad2(secs / 60), pad2(secs % 60))
}

/// Stamps never run backwards: of two lines the one that starts later is not stamped
/// earlier.
pub proof fn law_stamps_never_run_backwards(
    a: Line,
    b: Line,
    am: Seq<char>,
    asec: Seq<char>,
    bm: Seq<char>,
    bsec: Seq<char>,
)
    requires
        a.0 <= b.0,
        line_text(a) == "**["@ + am + ":"@ + asec + "] "@ + a.1 + ":** "@ + a.2 + "\n\n"@,
        line_text(b) == "**["@ + bm + ":"@ + bsec + "] "@ + b.1 + ":** "@ + b.2 + "\n\n"@,
        row_of_digits(am) && row_of_digits(asec) && row_of_digits(bm) && row_of_digits(bsec),
    ensures
        60 * number_written(am) + number_written(asec) <= 60 * number_written(bm) + number_written(
            bsec,
        ),
{
    let p = law_stamp_reads_back(a);
    let q = law_stamp_reads_back(b);
    lemma_one_stamp(p.0, p.1, am, asec, "] "@ + a.1 + ":** "@ + a.2 + "\n\n"@);
    lemma_one_stamp(q.0, q.1, bm, bsec, "] "@ + b.1 + ":** "@ + b.2 + "\n\n"@);
    assert(line_text(a) == "**["@ + am + ":"@ + asec + ("] "@ + a.1 + ":** "@ + a.2 + "\n\n"@));
    assert(line_text(a) == "**["@ + p.0 + ":"@ + p.1 + ("] "@ + a.1 + ":** "@ + a.2 + "\n\n"@));
    assert(line_text(b) == "**["@ + bm + ":"@ + bsec + ("] "@ + b.1 + ":** "@ + b.2 + "\n\n"@));
    assert(line_text(b) == "**["@ + q.0 + ":"@ + q.1 + ("] "@ + b.1 + ":** "@ + b.2 + "\n\n"@));
}

proof fn lemma_one_stamp(
    am: Seq<char>,
    asec: Seq<char>,
    bm: Seq<char>,
    bsec: Seq<char>,
    rest: Seq<char>,
)
    requires
        row_of_digits(am) && row_of_digits(asec) && row_of_digits(bm) && row_of_digits(bsec),
    ensures
        "**["@ + am + ":"@ + asec + rest == "**["@ + bm + ":"@ + bsec + rest ==> am == bm && asec
            == bsec,
{
    reveal_strlit("**[");
    reveal_strlit(":");
    let s = "**["@ + am + ":"@ + asec + rest;
    let t = "**["@ + bm + ":"@ + bsec + rest;
    if s == t {
        assert(s[3 + am.len() as int] == ':' && t[3 + bm.len() as int] == ':');
        if am.len() < bm.len() {
            assert(t[3 + am.len() as int] == bm[am.len() as int]);
        } else if bm.len() < am.len() {
            assert(s[3 + bm.len() as int] == am[bm.len() as int]);
        }
        assert(am.len() == bm.len());
        assert(s.len() == 4 + am.len() + asec.len() + rest.len());
        assert(t.len() == 4 + bm.len() + bsec.len() + rest.len());
        assert forall|i: int| 0 <= i < am.len() implies am[i] == bm[i] by {
            assert(s[3 + i] == am[i] && t[3 + i] == bm[i]);
        }
        assert forall|i: int| 0 <= i < asec.len() implies asec[i] == bsec[i] by {
            assert(s[4 + am.len() + i] == asec[i] && t[4 + am.len() + i] == bsec[i]);
        }
        assert(am == bm && asec == bsec);
    }
}

/// The body of a transcript is its lines, in order and nothing between: a segment more is
/// its line more, and the line says when it began, who spoke and what was said. Without
/// any it says that nobody spoke.
pub proof fn law_body_is_its_lines(es: Seq<Entry>, e: Entry)
    ensures
        body_text(Seq::<Entry>::empty()) == "_No speech detected on either track._\n"@,
        body_text(seq![e]) == line_text((e.0 as nat, e.1@, e.2@)),
        es.len() > 0 ==> body_text(es.push(e)) == body_text(es) + body_text(seq![e]),
{
    let one = lines_of(seq![e]);
    assert(one.drop_last() == Seq::<Line>::empty());
    assert(lines_text(one.drop_last()) == Seq::<char>::empty());
    assert(one.last() == line_of(e));
    assert(lines_text(one) == line_text(line_of(e)));
    let all = lines_of(es.push(e));
    assert(all.drop_last() == lines_of(es));
    assert(all.last() == line_of(e));
}

/// Lines of text one behind the other: a line more is its text more.
pub proof fn law_lines_follow_each_other(ls: Seq<Line>, l: Line)
    ensures
        lines_text(Seq::<Line>::empty()) == Seq::<char>::empty(),
        lines_text(ls.push(l)) == lines_text(ls) + line_text(l),
{
    assert(ls.push(l).drop_last() == ls);
}

/// Whether a file system or a shell could choke on `c`.
pub open spec fn chokes(c: char) -> bool {
    let u = c as int;
    c == '/' || c == '\\' || c == ':' || c == '*' || c == '?' || c == '"' || c == '<' || c == '>'
        || c == '|' || u <= 0x1f || 0x7f <= u <= 0x9f
}

proof fn lemma_chokes(c: char)
    ensures
        chokes(c) == unsafe_in_name(c),
{
}

/// No label holds a character that a file system or a shell could choke on, and none is
/// longer than 60 characters.
pub proof fn law_label_chokes_nobody(title: Seq<char>)
    ensures
        file_label(title).len() <= 60,
        forall|i: int| 0 <= i < file_label(title).len() ==> !chokes(#[trigger] file_label(title)[i]),
{
    law_label_is_safe(title);
    assert forall|i: int| 0 <= i < file_label(title).len() implies !chokes(
        #[trigger] file_label(title)[i],
    ) by {
        lemma_chokes(file_label(title)[i]);
        assert(!unsafe_in_name(file_label(title)[i]));
    }
}

/// Whether `s` is single words with one space between each two.
pub open spec fn tidy(s: Seq<char>) -> bool {
    &&& s.len() > 0 ==> !white_space(s[0]) && !white_space(s.last())
    &&& forall|i: int|
        0 <= i < s.len() - 1 && white_space(#[trigger] s[i]) ==> s[i] == ' ' && !white_space(
            s[i + 1],
        )
}

proof fn lemma_tidy_rest(s: Seq<char>, n: int)
    requires
        tidy(s),
        0 < n < s.len(),
        white_space(s[n]),
    ensures
        s[n] == ' ',
        n + 1 < s.len(),
        tidy(s.skip(n + 1)),
{
    let tail = s.skip(n + 1);
    if n == s.len() - 1 {
        assert(s.last() == s[n]);
    }
    assert(tail[0] == s[n + 1]);
    assert(tail.last() == s.last());
    assert forall|i: int| 0 <= i < tail.len() - 1 && white_space(#[trigger] tail[i]) implies tail[i]
        == ' ' && !white_space(tail[i + 1]) by {
        assert(tail[i] == s[n + 1 + i] && tail[i + 1] == s[n + 2 + i]);
    }
}

proof fn lemma_first_word(s: Seq<char>)
    requires
        s.len() > 0,
        !white_space(s[0]),
    ensures
        0 < word_len(s) <= s.len(),
        word_len(s) < s.len() ==> white_space(s[word_len(s) as int]),
        words_spec(s) == seq![s.take(word_len(s) as int)] + words_spec(s.skip(word_len(s) as int)),
{
    let n = word_len(s) as int;
    lemma_word_len(s);
    lemma_word_runs(s);
    assert(trim_start_spec(s) == s);
}

proof fn lemma_space_in_front(s: Seq<char>)
    requires
        s.len() > 0,
        white_space(s[0]),
    ensures
        words_spec(s) == words_spec(s.drop_first()),
{
    assert(trim_start_spec(s) == trim_start_spec(s.drop_first()));
}

proof fn lemma_tidy(s: Seq<char>)
    requires
        tidy(s),
    ensures
        join_spec(words_spec(s), seq![' ']) == s,
        s.len() > 0 ==> words_spec(s).len() > 0,
    decreases s.len(),
{
    if s.len() == 0 {
        assert(trim_start_spec(s) == s);
        assert(words_spec(s) == Seq::<Seq<char>>::empty());
    } else {
        lemma_first_word(s);
        let n = word_len(s) as int;
        let w = s.take(n);
        let rest = s.skip(n);
        if n == s.len() {
            assert(trim_start_spec(rest) == rest);
            assert(words_spec(rest) == Seq::<Seq<char>>::empty());
            assert(words_spec(s) == seq![w]);
            law_joining_puts_separators_between(Seq::empty(), w, seq![' ']);
            assert(w == s);
        } else {
            lemma_tidy_rest(s, n);
            let tail = s.skip(n + 1);
            assert(rest.drop_first() == tail);
            assert(rest[0] == s[n]);
            lemma_space_in_front(rest);
            lemma_tidy(tail);
            law_joining_puts_separators_between(words_spec(tail), w, seq![' ']);
            assert(w + seq![' '] + tail == s);
        }
    }
}

proof fn lemma_word_runs(s: Seq<char>)
    ensures
        word_len(s) <= s.len(),
        forall|i: int| 0 <= i < word_len(s) ==> !white_space(#[trigger] s[i]),
        word_len(s) < s.len() ==> white_space(s[word_len(s) as int]),
    decreases s.len(),
{
    if s.len() > 0 && !white_space(s[0]) {
        let t = s.drop_first();
        lemma_word_runs(t);
        assert forall|i: int| 0 <= i < word_len(s) implies !white_space(#[trigger] s[i]) by {
            if i > 0 {
                assert(t[i - 1] == s[i]);
            }
        }
        if word_len(s) < s.len() {
            assert(t[word_len(t) as int] == s[word_len(s) as int]);
        }
    }
}

/// A title that is fit for a file name is its own label: short, tidy, without characters
/// that anything chokes on, and without dots at its ends.
pub proof fn law_fit_title_is_its_label(title: Seq<char>)
    requires
        title.len() <= 60,
        tidy(title),
        forall|i: int| 0 <= i < title.len() ==> !chokes(#[trigger] title[i]),
        title.len() > 0 ==> title[0] != '.' && title.last() != '.',
    ensures
        file_label(title) == title,
{
    assert(cleaned(title) == title) by {
        assert forall|i: int| 0 <= i < title.len() implies #[trigger] cleaned(title)[i] == title[i] by {
            lemma_chokes(title[i]);
            assert(!chokes(title[i]));
        }
    }
    reveal_strlit(" ");
    assert(" "@ == seq![' ']);
    lemma_tidy(title);
    assert(collapsed(title) == title);
    assert(stripped(title) == title);
}

/// The characters of `s` that are no white space, in order.
pub open spec fn dark(s: Seq<char>) -> Seq<char> {
    s.filter(|c: char| !white_space(c))
}

/// The characters of a title that a label can hold, spaces aside, in order.
pub open spec fn usable(title: Seq<char>) -> Seq<char> {
    title.filter(|c: char| !white_space(c) && !chokes(c))
}

/// `s` without the dots that it begins with.
pub open spec fn undotted_start(s: Seq<char>) -> Seq<char>
    decreases s.len(),
{
    if s.len() > 0 && s[0] == '.' {
        undotted_start(s.drop_first())
    } else {
        s
    }
}

/// `s` without the dots that it ends with.
pub open spec fn undotted_end(s: Seq<char>) -> Seq<char>
    decreases s.len(),
{
    if s.len() > 0 && s.last() == '.' {
        undotted_end(s.drop_last())
    } else {
        s
    }
}

proof fn lemma_dark_push(s: Seq<char>, c: char)
    ensures
        dark(s.push(c)) == if white_space(c) {
            dark(s)
        } else {
            dark(s).push(c)
        },
{
    reveal(Seq::filter);
    assert(s.push(c).drop_last() == s);
}

proof fn lemma_dark_add(a: Seq<char>, b: Seq<char>)
    ensures
        dark(a + b) == dark(a) + dark(b),
{
    Seq::filter_distributes_over_add(a, b, |c: char| !white_space(c));
}

proof fn lemma_dark_one(c: char)
    ensures
        dark(seq![c]) == if white_space(c) {
            Seq::<char>::empty()
        } else {
            seq![c]
        },
{
    let none = Seq::<char>::empty();
    lemma_dark_push(none, c);
    assert(none.push(c) == seq![c]);
    assert(dark(none) == none) by {
        reveal(Seq::filter);
    }
}

proof fn lemma_dark_cleaned(title: Seq<char>)
    ensures
        dark(cleaned(title)) == usable(title),
    decreases title.len(),
{
    reveal(Seq::filter);
    if title.len() > 0 {
        let head = title.drop_last();
        let c = title.last();
        lemma_dark_cleaned(head);
        lemma_chokes(c);
        let d = if unsafe_in_name(c) {
            ' '
        } else {
            c
        };
        assert(cleaned(title) == cleaned(head).push(d));
        lemma_dark_push(cleaned(head), d);
    } else {
        assert(cleaned(title) == title);
    }
}

proof fn lemma_dark_words(s: Seq<char>)
    ensures
        dark(join_spec(words_spec(s), seq![' '])) == dark(s),
        join_spec(words_spec(s), seq![' ']).len() <= s.len(),
        words_spec(s).len() == 0 ==> dark(s).len() == 0,
    decreases s.len(),
{
    if s.len() == 0 {
        reveal(Seq::filter);
        assert(trim_start_spec(s) == s);
        assert(words_spec(s) == Seq::<Seq<char>>::empty());
        assert(join_spec(words_spec(s), seq![' ']) == s);
    } else if white_space(s[0]) {
        let t = s.drop_first();
        lemma_dark_words(t);
        lemma_space_in_front(s);
        assert(s == seq![s[0]] + t);
        lemma_dark_add(seq![s[0]], t);
        lemma_dark_one(s[0]);
        assert(Seq::<char>::empty() + dark(t) == dark(t));
    } else {
        lemma_first_word(s);
        let n = word_len(s) as int;
        let w = s.take(n);
        let rest = s.skip(n);
        assert(s == w + rest);
        lemma_dark_words(rest);
        lemma_dark_add(w, rest);
        let ws = words_spec(rest);
        let j = join_spec(ws, seq![' ']);
        law_joining_puts_separators_between(ws, w, seq![' ']);
        if ws.len() == 0 {
            assert(seq![w] + ws == seq![w]);
            assert(dark(w) + dark(rest) == dark(w));
        } else {
            lemma_dark_add(w + seq![' '], j);
            lemma_dark_add(w, seq![' ']);
            lemma_dark_one(' ');
            assert(dark(w) + Seq::<char>::empty() == dark(w));
        }
        lemma_join_length(s);
    }
}

proof fn lemma_join_is_shorter(s: Seq<char>)
    requires
        s.len() > 0,
        white_space(s[0]),
    ensures
        join_spec(words_spec(s), seq![' ']).len() < s.len(),
    decreases s.len(), 0int,
{
    lemma_space_in_front(s);
    lemma_join_length(s.drop_first());
}

proof fn lemma_join_length(s: Seq<char>)
    ensures
        join_spec(words_spec(s), seq![' ']).len() <= s.len(),
    decreases s.len(), 1int,
{
    if s.len() == 0 {
        assert(trim_start_spec(s) == s);
    } else if white_space(s[0]) {
        lemma_join_is_shorter(s);
    } else {
        lemma_first_word(s);
        let n = word_len(s) as int;
        let w = s.take(n);
        let rest = s.skip(n);
        if rest.len() > 0 {
            assert(rest[0] == s[n]);
            lemma_join_is_shorter(rest);
        } else {
            assert(trim_start_spec(rest) == rest);
        }
        let ws = words_spec(rest);
        law_joining_puts_separators_between(ws, w, seq![' ']);
        if ws.len() == 0 {
            assert(seq![w] + ws == seq![w]);
        }
    }
}

proof fn lemma_dark_collapsed(title: Seq<char>)
    ensures
        dark(collapsed(title)) == usable(title),
        collapsed(title).len() <= title.len(),
{
    reveal_strlit(" ");
    assert(" "@ == seq![' ']);
    lemma_dark_words(cleaned(title));
    lemma_dark_cleaned(title);
}

proof fn lemma_dark_stripped_start(s: Seq<char>)
    ensures
        dark(stripped_start(s)) == undotted_start(dark(s)),
    decreases s.len(),
{
    if s.len() == 0 {
        reveal(Seq::filter);
    } else {
        let t = s.drop_first();
        assert(s == seq![s[0]] + t);
        lemma_dark_add(seq![s[0]], t);
        lemma_dark_one(s[0]);
        if bad_at_ends(s[0]) {
            lemma_dark_stripped_start(t);
            if s[0] == '.' {
                assert(!white_space('.'));
                assert(dark(s).drop_first() == dark(t));
            } else {
                assert(dark(s) == dark(t));
            }
        } else {
            assert(dark(s)[0] == s[0]);
        }
    }
}

proof fn lemma_dark_stripped_end(s: Seq<char>)
    ensures
        dark(stripped_end(s)) == undotted_end(dark(s)),
    decreases s.len(),
{
    if s.len() == 0 {
        reveal(Seq::filter);
    } else {
        let t = s.drop_last();
        assert(s == t.push(s.last()));
        lemma_dark_push(t, s.last());
        if bad_at_ends(s.last()) {
            lemma_dark_stripped_end(t);
            if s.last() == '.' {
                assert(!white_space('.'));
                assert(dark(s).drop_last() == dark(t));
            }
        }
    }
}

/// A label is the title's own: spaces aside it is the beginning of the characters of the
/// title that a label can hold, leading dots left out; and of a title of no more than 60
/// characters it is all of them, without the dots at the ends.
pub proof fn law_label_is_the_titles_own(title: Seq<char>)
    ensures
        dark(file_label(title)).is_prefix_of(undotted_start(usable(title))),
        title.len() <= 60 ==> dark(file_label(title)) == undotted_end(
            undotted_start(usable(title)),
        ),
{
    let j = collapsed(title);
    lemma_dark_collapsed(title);
    let x = stripped_start(j);
    lemma_dark_stripped_start(j);
    let a = lemma_stripped_start(j);
    let b = lemma_stripped_end(x);
    let bare = stripped(j);
    assert(bare == x.take(b));
    lemma_dark_stripped_end(x);
    let head = at_most(bare, MAX_LABEL_CHARS as nat);
    assert(head == x.take(head.len() as int));
    if head.len() > 0 {
        assert(head[0] == x[0]);
        assert(x[0] == j[a]);
    }
    assert(stripped_start(head) == head);
    let c = lemma_stripped_end(head);
    let label = file_label(title);
    assert(label == head.take(c));
    assert(label == x.take(label.len() as int));
    let tail = x.skip(label.len() as int);
    assert(x == label + tail);
    lemma_dark_add(label, tail);
    let d = dark(x);
    assert(d.take(dark(label).len() as int) == dark(label));
    if title.len() <= 60 {
        assert(head == bare);
        if c < head.len() {
            assert(bare.len() > 0);
            lemma_stripped(j);
            assert(!bad_at_ends(bare.last()));
            assert(stripped_end(bare) == bare);
        }
        assert(stripped_end(bare) == bare);
        assert(label == bare);
    }
}

proof fn lemma_cut_end(s: Seq<char>) -> (b: int)
    ensures
        0 <= b <= s.len(),
        stripped_end(s) == s.take(b),
        forall|k: int| b <= k < s.len() ==> bad_at_ends(#[trigger] s[k]),
        b > 0 ==> !bad_at_ends(s[b - 1]),
    decreases s.len(),
{
    if s.len() > 0 && bad_at_ends(s.last()) {
        let t = s.drop_last();
        let b = lemma_cut_end(t);
        assert(t.take(b) == s.take(b));
        assert forall|k: int| b <= k < s.len() implies bad_at_ends(#[trigger] s[k]) by {
            if k < t.len() {
                assert(t[k] == s[k]);
            }
        }
        b
    } else {
        assert(s.take(s.len() as int) == s);
        s.len() as int
    }
}

/// A longer title that is fit for a file name but for its length is cut to its first 60
/// characters, less the dots and the white space that the cut leaves at the end.
pub proof fn law_long_title_is_cut_at_sixty(title: Seq<char>) -> (n: int)
    requires
        title.len() > 60,
        tidy(title),
        forall|i: int| 0 <= i < title.len() ==> !chokes(#[trigger] title[i]),
        title[0] != '.' && title.last() != '.',
    ensures
        0 < n <= 60,
        file_label(title) == title.take(n),
        forall|k: int| n <= k < 60 ==> #[trigger] title[k] == '.' || white_space(title[k]),
        title[n - 1] != '.' && !white_space(title[n - 1]),
{
    assert(cleaned(title) == title) by {
        assert forall|i: int| 0 <= i < title.len() implies #[trigger] cleaned(title)[i] == title[i] by {
            lemma_chokes(title[i]);
            assert(!chokes(title[i]));
        }
    }
    reveal_strlit(" ");
    assert(" "@ == seq![' ']);
    lemma_tidy(title);
    assert(collapsed(title) == title);
    assert(stripped(title) == title);
    let head = title.take(60);
    assert(head[0] == title[0]);
    assert(stripped_start(head) == head);
    let n = lemma_cut_end(head);
    if n == 0 {
        assert(bad_at_ends(head[0]));
    }
    assert(head.take(n) == title.take(n));
    assert forall|k: int| n <= k < 60 implies #[trigger] title[k] == '.' || white_space(title[k]) by {
        assert(bad_at_ends(head[k]));
    }
    n
}

/// White space between two texts parts their words.
proof fn lemma_words_part(a: Seq<char>, w: char, b: Seq<char>)
    requires
        white_space(w),
    ensures
        words_spec(a + seq![w] + b) == words_spec(a) + words_spec(b),
    decreases a.len(),
{
    let s = a + seq![w] + b;
    if a.len() == 0 {
        assert(s[0] == w && s.drop_first() == b);
        assert(trim_start_spec(s) == trim_start_spec(b));
        assert(words_spec(a) + words_spec(b) == words_spec(b));
    } else if white_space(a[0]) {
        let rest = a.drop_first();
        lemma_words_part(rest, w, b);
        assert(s[0] == a[0] && s.drop_first() == rest + seq![w] + b);
        assert(trim_start_spec(s) == trim_start_spec(s.drop_first()));
        assert(trim_start_spec(a) == trim_start_spec(rest));
    } else {
        let n = word_len(a) as int;
        lemma_word_len(a);
        lemma_word_runs(a);
        let (p, q) = (a.take(n), a.skip(n));
        assert forall|i: int| 0 <= i < p.len() implies !white_space(#[trigger] p[i]) by {
            assert(p[i] == a[i]);
        }
        if q.len() > 0 {
            assert(q[0] == a[n]);
        }
        let rest = q + seq![w] + b;
        assert(rest[0] == if q.len() > 0 {
            q[0]
        } else {
            w
        });
        assert(s == p + rest);
        assert(a == p + q);
        law_words_stand_between_white_space(p, rest, w);
        law_words_stand_between_white_space(p, q, w);
        lemma_words_part(q, w, b);
        assert(seq![p] + (words_spec(q) + words_spec(b)) == (seq![p] + words_spec(q)) + words_spec(
            b,
        ));
    }
}

proof fn lemma_cleaned_add(a: Seq<char>, b: Seq<char>)
    ensures
        cleaned(a + b) == cleaned(a) + cleaned(b),
{
}

/// Whatever parts the words of a title, white space or a character that something chokes
/// on, once or twice over, is a single space in the label, and nothing at its ends.
pub proof fn law_gaps_become_single_spaces(a: Seq<char>, c: char, d: char, b: Seq<char>)
    requires
        white_space(c) || chokes(c),
        white_space(d) || chokes(d),
    ensures
        file_label(a + seq![c] + b) == file_label(a + seq![' '] + b),
        file_label(a + seq![c] + (seq![d] + b)) == file_label(a + seq![' '] + b),
        file_label(seq![c] + b) == file_label(b),
        file_label(a + seq![c]) == file_label(a),
{
    let (x, y) = (cleaned(a), cleaned(b));
    let none = Seq::<char>::empty();
    lemma_gap(a, c, b);
    lemma_gap(a, ' ', b);
    lemma_gap(a, c, seq![d] + b);
    lemma_gap(none, d, b);
    lemma_gap(none, c, b);
    lemma_gap(a, c, none);
    assert(none + seq![d] + b == seq![d] + b);
    assert(none + seq![c] + b == seq![c] + b);
    assert(a + seq![c] + none == a + seq![c]);
    assert(cleaned(none) == none);
    assert(words_spec(none) == Seq::<Seq<char>>::empty());
    assert(words_spec(none) + words_spec(y) == words_spec(y));
    assert(words_spec(x) + words_spec(none) == words_spec(x));
}

proof fn lemma_gap(a: Seq<char>, c: char, b: Seq<char>)
    requires
        white_space(c) || chokes(c),
    ensures
        words_spec(cleaned(a + seq![c] + b)) == words_spec(cleaned(a)) + words_spec(cleaned(b)),
{
    lemma_chokes(c);
    let w = if chokes(c) {
        ' '
    } else {
        c
    };
    assert(white_space(' '));
    assert(cleaned(seq![c]) == seq![w]);
    lemma_cleaned_add(a + seq![c], b);
    lemma_cleaned_add(a, seq![c]);
    lemma_words_part(cleaned(a), w, cleaned(b));
}

} // verus!
