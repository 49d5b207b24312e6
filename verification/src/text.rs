//! Text as sequences of characters: classes, trimming, searching, splitting.

use vstd::prelude::*;
use vstd::string::*;
use vstd::utf8::*;

verus! {

/// `String::push` appends one character at the end.
pub assume_specification[ String::push ](s: &mut String, c: char)
    ensures
        final(s)@ == old(s)@.push(c),
;

/// The characters with Unicode's White_Space property.
pub open spec fn white_space(c: char) -> bool {
    let u = c as u32;
    ||| 0x09 <= u <= 0x0d
    ||| u == 0x20
    ||| u == 0x85
    ||| u == 0xa0
    ||| u == 0x1680
    ||| 0x2000 <= u <= 0x200a
    ||| u == 0x2028
    ||| u == 0x2029
    ||| u == 0x202f
    ||| u == 0x205f
    ||| u == 0x3000
}

/// Whether `c` has Unicode's White_Space property.
pub fn is_white_space(c: char) -> (r: bool)
    ensures
        r == white_space(c),
{
    let u: u32 = c as u32;
    (0x09 <= u && u <= 0x0d) || u == 0x20 || u == 0x85 || u == 0xa0 || u == 0x1680 || (0x2000 <= u
        && u <= 0x200a) || u == 0x2028 || u == 0x2029 || u == 0x202f || u == 0x205f || u == 0x3000
}

/// The characters of general category Cc.
pub open spec fn control(c: char) -> bool {
    c as u32 <= 0x1f || 0x7f <= c as u32 <= 0x9f
}

/// Whether `c` is a control character.
pub fn is_control(c: char) -> (r: bool)
    ensures
        r == control(c),
{
    let u: u32 = c as u32;
    u <= 0x1f || (0x7f <= u && u <= 0x9f)
}

/// The characters of `s`, in order.
pub fn chars_of(s: &str) -> (r: Vec<char>)
    ensures
        r@ == s@,
{
    let mut out: Vec<char> = Vec::new();
    for c in it: s.chars()
        invariant
            it.seq() == s@,
            out@ == it.seq().take(it.index()),
    {
        out.push(c);
    }
    out
}

/// `s` without its leading white space.
pub open spec fn trim_start_spec(s: Seq<char>) -> Seq<char>
    decreases s.len(),
{
    if s.len() > 0 && white_space(s[0]) {
        trim_start_spec(s.drop_first())
    } else {
        s
    }
}

/// `s` without its trailing white space.
pub open spec fn trim_end_spec(s: Seq<char>) -> Seq<char>
    decreases s.len(),
{
    if s.len() > 0 && white_space(s.last()) {
        trim_end_spec(s.drop_last())
    } else {
        s
    }
}

/// `s` without white space at either end.
pub open spec fn trim_spec(s: Seq<char>) -> Seq<char> {
    trim_end_spec(trim_start_spec(s))
}

/// How many leading characters of `v` are white space.
fn leading_white(v: &[char]) -> (n: usize)
    ensures
        n <= v@.len(),
        trim_start_spec(v@) == v@.skip(n as int),
{
    let mut i: usize = 0;
    assert(v@.skip(0) == v@);
    while i < v.len() && is_white_space(v[i])
        invariant
            i <= v@.len(),
            trim_start_spec(v@) == trim_start_spec(v@.skip(i as int)),
        decreases v@.len() - i,
    {
        assert(v@.skip(i as int).drop_first() == v@.skip(i + 1));
        i += 1;
    }
    i
}

/// Where the text of `v[from..]` ends once its trailing white space is cut.
fn trailing_cut(v: &[char], from: usize) -> (end: usize)
    requires
        from <= v@.len(),
    ensures
        from <= end <= v@.len(),
        trim_end_spec(v@.skip(from as int)) == v@.subrange(from as int, end as int),
{
    let mut end: usize = v.len();
    assert(v@.subrange(from as int, end as int) == v@.skip(from as int));
    while end > from && is_white_space(v[end - 1])
        invariant
            from <= end <= v@.len(),
            trim_end_spec(v@.skip(from as int)) == trim_end_spec(
                v@.subrange(from as int, end as int),
            ),
        decreases end,
    {
        assert(v@.subrange(from as int, end as int).drop_last() == v@.subrange(
            from as int,
            end - 1,
        ));
        end -= 1;
    }
    end
}

/// The text between the leading and the trailing white space of `s`.
pub fn trim(s: &str) -> (r: &str)
    ensures
        r@ == trim_spec(s@),
{
    let v = chars_of(s);
    let from = leading_white(&v);
    let end = trailing_cut(&v, from);
    s.substring_char(from, end)
}

/// `s` up to its trailing white space.
pub fn trim_end(s: &str) -> (r: &str)
    ensures
        r@ == trim_end_spec(s@),
{
    let v = chars_of(s);
    let end = trailing_cut(&v, 0);
    assert(v@.skip(0) == v@);
    s.substring_char(0, end)
}

/// Whether `v` holds `p` at position `at`.
pub open spec fn found_at(v: Seq<char>, p: Seq<char>, at: int) -> bool {
    0 <= at && at + p.len() <= v.len() && v.subrange(at, at + p.len()) == p
}

/// Whether `p` occurs in `v`.
pub open spec fn occurs_in(p: Seq<char>, v: Seq<char>) -> bool {
    exists|at: int| #[trigger] found_at(v, p, at)
}

fn matches_at(v: &[char], p: &[char], at: usize) -> (r: bool)
    ensures
        r == found_at(v@, p@, at as int),
{
    if p.len() > v.len() || at > v.len() - p.len() {
        return false;
    }
    let n: usize = v.len();
    let mut i: usize = 0;
    while i < p.len()
        invariant
            i <= p@.len(),
            at + p@.len() <= v@.len() == n,
            v@.subrange(at as int, at + i) == p@.take(i as int),
        decreases p@.len() - i,
    {
        if v[at + i] != p[i] {
            assert(v@.subrange(at as int, at + p@.len())[i as int] != p@[i as int]);
            return false;
        }
        assert(v@.subrange(at as int, at + i + 1) == v@.subrange(at as int, at + i).push(v@[at + i]));
        assert(p@.take(i + 1) == p@.take(i as int).push(p@[i as int]));
        i += 1;
    }
    assert(p@.take(i as int) == p@);
    true
}

/// Whether `s` begins with `prefix`.
pub fn starts_with(s: &str, prefix: &str) -> (r: bool)
    ensures
        r == prefix@.is_prefix_of(s@),
{
    let v = chars_of(s);
    let p = chars_of(prefix);
    let r = matches_at(&v, &p, 0);
    proof {
        if p@.len() <= v@.len() {
            assert(v@.subrange(0, p@.len() as int) == v@.take(p@.len() as int));
        }
    }
    r
}

/// Whether `s` ends with `suffix`.
pub fn ends_with(s: &str, suffix: &str) -> (r: bool)
    ensures
        r == suffix@.is_suffix_of(s@),
{
    let v = chars_of(s);
    let p = chars_of(suffix);
    if p.len() > v.len() {
        return false;
    }
    let at: usize = v.len() - p.len();
    matches_at(&v, &p, at)
}

/// `s` without as many characters at its end as `suffix` has.
pub open spec fn without_end(s: Seq<char>, suffix: Seq<char>) -> Seq<char> {
    s.take(s.len() - suffix.len())
}

/// `s` without `suffix`, where it ends with it.
pub fn strip_suffix<'a>(s: &'a str, suffix: &str) -> (r: Option<&'a str>)
    ensures
        match r {
            Some(rest) => suffix@.is_suffix_of(s@) && rest@ == without_end(s@, suffix@),
            None => !suffix@.is_suffix_of(s@),
        },
{
    if !ends_with(s, suffix) {
        return None;
    }
    let n: usize = s.unicode_len() - suffix.unicode_len();
    let rest = s.substring_char(0, n);
    assert(rest@ == without_end(s@, suffix@));
    Some(rest)
}

/// `s` without `suffix` at its end, as often as it stands there.
pub open spec fn without_suffix(s: Seq<char>, suffix: Seq<char>) -> Seq<char>
    decreases s.len(),
{
    if suffix.len() > 0 && suffix.is_suffix_of(s) {
        without_suffix(without_end(s, suffix), suffix)
    } else {
        s
    }
}

/// `s` without `suffix` at its end, as often as it stands there.
pub fn trim_end_matches<'a>(s: &'a str, suffix: &str) -> (r: &'a str)
    requires
        suffix@.len() > 0,
    ensures
        r@ == without_suffix(s@, suffix@),
{
    let mut rest: &'a str = s;
    loop
        invariant
            suffix@.len() > 0,
            without_suffix(rest@, suffix@) == without_suffix(s@, suffix@),
        decreases rest@.len(),
    {
        match strip_suffix(rest, suffix) {
            Some(shorter) => {
                rest = shorter;
            },
            None => {
                return rest;
            },
        }
    }
}

/// Whether `needle` occurs in `s`.
pub fn contains(s: &str, needle: &str) -> (r: bool)
    ensures
        r == occurs_in(needle@, s@),
{
    let v = chars_of(s);
    let p = chars_of(needle);
    let mut at: usize = 0;
    while at <= v.len()
        invariant
            at <= v@.len() + 1,
            v@ == s@,
            p@ == needle@,
            forall|k: int| 0 <= k < at ==> !#[trigger] found_at(v@, p@, k),
        decreases v@.len() + 1 - at,
    {
        if matches_at(&v, &p, at) {
            return true;
        }
        if at == v.len() {
            return false;
        }
        at += 1;
    }
    false
}

/// Whether the two texts are the same.
pub fn same_text(a: &str, b: &str) -> (r: bool)
    ensures
        r == (a@ == b@),
{
    a.to_owned() == b.to_owned()
}

/// Where `t` first stands among the texts.
pub open spec fn first_at(texts: Seq<Seq<char>>, t: Seq<char>) -> Option<int>
    decreases texts.len(),
{
    if texts.len() == 0 {
        None
    } else {
        match first_at(texts.drop_last(), t) {
            Some(k) => Some(k),
            None => if texts.last() == t {
                Some(texts.len() - 1)
            } else {
                None
            },
        }
    }
}

/// Where `t` first stands among the texts.
pub fn position_of(texts: &Vec<String>, t: &str) -> (r: Option<usize>)
    ensures
        match r {
            Some(k) => first_at(views(texts@), t@) == Some(k as int) && k < texts@.len(),
            None => first_at(views(texts@), t@) is None,
        },
{
    let mut found: Option<usize> = None;
    let mut i: usize = 0;
    while i < texts.len()
        invariant
            i <= texts@.len(),
            match found {
                Some(k) => first_at(views(texts@).take(i as int), t@) == Some(k as int) && k < i,
                None => first_at(views(texts@).take(i as int), t@) is None,
            },
        decreases texts@.len() - i,
    {
        assert(views(texts@).take(i + 1).drop_last() == views(texts@).take(i as int));
        if found.is_none() && same_text(texts[i].as_str(), t) {
            found = Some(i);
        }
        i += 1;
    }
    assert(views(texts@).take(i as int) == views(texts@));
    found
}

/// An optional text by its view.
pub open spec fn text_view(t: Option<String>) -> Option<Seq<char>> {
    match t {
        Some(s) => Some(s@),
        None => None,
    }
}

/// An optional text by its view.
pub open spec fn str_view(t: Option<&str>) -> Option<Seq<char>> {
    match t {
        Some(s) => Some(s@),
        None => None,
    }
}

/// How many characters of `s` come before its first white space.
pub open spec fn word_len(s: Seq<char>) -> nat
    decreases s.len(),
{
    if s.len() == 0 || white_space(s[0]) {
        0
    } else {
        1 + word_len(s.drop_first())
    }
}

pub proof fn lemma_word_len(s: Seq<char>)
    ensures
        word_len(s) <= s.len(),
        s.len() > 0 && !white_space(s[0]) ==> word_len(s) > 0,
    decreases s.len(),
{
    if s.len() > 0 && !white_space(s[0]) {
        lemma_word_len(s.drop_first());
    }
}

pub proof fn lemma_trim_start(s: Seq<char>)
    ensures
        trim_start_spec(s).len() <= s.len(),
        trim_start_spec(s).len() > 0 ==> !white_space(trim_start_spec(s)[0]),
    decreases s.len(),
{
    if s.len() > 0 && white_space(s[0]) {
        lemma_trim_start(s.drop_first());
    }
}

/// The maximal runs of characters of `s` that are not white space, in order.
pub open spec fn words_spec(s: Seq<char>) -> Seq<Seq<char>>
    decreases s.len(),
    via words_decreases
{
    let t = trim_start_spec(s);
    if t.len() == 0 {
        Seq::empty()
    } else {
        seq![t.take(word_len(t) as int)] + words_spec(t.skip(word_len(t) as int))
    }
}

#[via_fn]
proof fn words_decreases(s: Seq<char>) {
    lemma_trim_start(s);
    lemma_word_len(trim_start_spec(s));
}

/// The views of a list of texts.
pub open spec fn views(v: Seq<String>) -> Seq<Seq<char>> {
    v.map_values(|w: String| w@)
}

/// The words of `s`: what `str::split_whitespace` yields.
pub fn words(s: &str) -> (r: Vec<String>)
    ensures
        views(r@) == words_spec(s@),
{
    let v = chars_of(s);
    let mut out: Vec<String> = Vec::new();
    let mut i: usize = 0;
    assert(v@.skip(0) == v@);
    assert(views(out@) + words_spec(v@) == words_spec(v@));
    loop
        invariant
            i <= v@.len(),
            v@ == s@,
            views(out@) + words_spec(v@.skip(i as int)) == words_spec(s@),
        decreases v@.len() - i,
    {
        let ghost rest = v@.skip(i as int);
        let mut from: usize = i;
        while from < v.len() && is_white_space(v[from])
            invariant
                i <= from <= v@.len(),
                rest == v@.skip(i as int),
                trim_start_spec(rest) == trim_start_spec(v@.skip(from as int)),
            decreases v@.len() - from,
        {
            assert(v@.skip(from as int).drop_first() == v@.skip(from + 1));
            from += 1;
        }
        let ghost t = v@.skip(from as int);
        if from == v.len() {
            assert(t.len() == 0);
            assert(words_spec(rest) == Seq::<Seq<char>>::empty());
            assert(views(out@) == words_spec(s@));
            return out;
        }
        let mut to: usize = from;
        assert(t.skip(0) == t);
        while to < v.len() && !is_white_space(v[to])
            invariant
                from <= to <= v@.len(),
                t == v@.skip(from as int),
                word_len(t) == (to - from) + word_len(v@.skip(to as int)),
            decreases v@.len() - to,
        {
            assert(v@.skip(to as int).drop_first() == v@.skip(to + 1));
            to += 1;
        }
        assert(word_len(t) == to - from);
        proof {
            lemma_word_len(t);
        }
        let word = s.substring_char(from, to).to_owned();
        let ghost before = views(out@);
        out.push(word);
        assert(t.take(to - from) == word@);
        assert(t.skip(to - from) == v@.skip(to as int));
        assert(views(out@) == before.push(word@));
        assert(before + (seq![word@] + words_spec(v@.skip(to as int))) == before.push(word@)
            + words_spec(v@.skip(to as int)));
        i = to;
    }
}

/// `parts` with `sep` between each two neighbours.
pub open spec fn join_spec(parts: Seq<Seq<char>>, sep: Seq<char>) -> Seq<char>
    decreases parts.len(),
{
    if parts.len() == 0 {
        Seq::empty()
    } else if parts.len() == 1 {
        parts[0]
    } else {
        join_spec(parts.drop_last(), sep) + sep + parts.last()
    }
}

/// The parts joined by `sep`.
pub fn join(parts: &Vec<String>, sep: &str) -> (r: String)
    ensures
        r@ == join_spec(views(parts@), sep@),
{
    let mut out = String::new();
    let mut i: usize = 0;
    while i < parts.len()
        invariant
            i <= parts@.len(),
            out@ == join_spec(views(parts@).take(i as int), sep@),
        decreases parts@.len() - i,
    {
        assert(views(parts@).take(i + 1).drop_last() == views(parts@).take(i as int));
        if i > 0 {
            out.append(sep);
        } else {
            assert(out@ == Seq::<char>::empty());
        }
        out.append(parts[i].as_str());
        i += 1;
    }
    assert(views(parts@).take(i as int) == views(parts@));
    out
}

/// Where `c` first stands in `s`, or the length of `s`.
pub open spec fn first_index(s: Seq<char>, c: char) -> nat
    decreases s.len(),
{
    if s.len() == 0 || s[0] == c {
        0
    } else {
        1 + first_index(s.drop_first(), c)
    }
}

pub proof fn lemma_first_index(s: Seq<char>, c: char)
    ensures
        first_index(s, c) <= s.len(),
        forall|k: int| 0 <= k < first_index(s, c) ==> s[k] != c,
        first_index(s, c) < s.len() ==> s[first_index(s, c) as int] == c,
    decreases s.len(),
{
    if s.len() > 0 && s[0] != c {
        lemma_first_index(s.drop_first(), c);
        assert forall|k: int| 0 <= k < first_index(s, c) implies s[k] != c by {
            if k > 0 {
                assert(s[k] == s.drop_first()[k - 1]);
            }
        }
    }
}

/// `s` without one final carriage return.
pub open spec fn strip_cr(s: Seq<char>) -> Seq<char> {
    if s.len() > 0 && s.last() == '\r' {
        s.drop_last()
    } else {
        s
    }
}

/// The lines of `s`: each ends at a line feed, which may follow a carriage
/// return; the last one may lack its line feed.
pub open spec fn lines_spec(s: Seq<char>) -> Seq<Seq<char>>
    decreases s.len(),
{
    let n = first_index(s, '\n') as int;
    if s.len() == 0 {
        Seq::empty()
    } else if n >= s.len() {
        seq![s]
    } else {
        seq![strip_cr(s.take(n))] + lines_spec(s.skip(n + 1))
    }
}

/// The lines of `s`: what `str::lines` yields.
pub fn lines(s: &str) -> (r: Vec<String>)
    ensures
        views(r@) == lines_spec(s@),
{
    let v = chars_of(s);
    let mut out: Vec<String> = Vec::new();
    let mut i: usize = 0;
    assert(v@.skip(0) == v@);
    assert(views(out@) + lines_spec(v@) == lines_spec(v@));
    while i < v.len()
        invariant
            i <= v@.len(),
            v@ == s@,
            views(out@) + lines_spec(v@.skip(i as int)) == lines_spec(s@),
        decreases v@.len() - i,
    {
        let ghost rest = v@.skip(i as int);
        let mut to: usize = i;
        while to < v.len() && v[to] != '\n'
            invariant
                i <= to <= v@.len(),
                rest == v@.skip(i as int),
                first_index(rest, '\n') == (to - i) + first_index(v@.skip(to as int), '\n'),
            decreases v@.len() - to,
        {
            assert(v@.skip(to as int).drop_first() == v@.skip(to + 1));
            to += 1;
        }
        assert(first_index(rest, '\n') == to - i);
        let ghost before = views(out@);
        if to == v.len() {
            let line = s.substring_char(i, to).to_owned();
            assert(line@ == rest);
            out.push(line);
            assert(views(out@) == before.push(line@));
            assert(before + seq![rest] == before.push(rest));
            return out;
        }
        assert(v@.subrange(i as int, to as int) == rest.take(to - i));
        let end: usize = if to > i && v[to - 1] == '\r' {
            to - 1
        } else {
            to
        };
        assert(strip_cr(rest.take(to - i)) == v@.subrange(i as int, end as int));
        let line = s.substring_char(i, end).to_owned();
        out.push(line);
        assert(views(out@) == before.push(line@));
        assert(rest.skip(to - i + 1) == v@.skip(to + 1));
        assert(before + (seq![line@] + lines_spec(v@.skip(to + 1))) == before.push(line@)
            + lines_spec(v@.skip(to + 1)));
        i = to + 1;
    }
    assert(v@.skip(i as int).len() == 0);
    assert(views(out@) + lines_spec(v@.skip(i as int)) == views(out@));
    out
}

/// The character that stands for the decimal digit `d`.
pub open spec fn digit(d: nat) -> char {
    (48 + d) as char
}

/// `n` in decimal, without leading zeros.
pub open spec fn dec(n: nat) -> Seq<char>
    decreases n,
{
    if n < 10 {
        seq![digit(n)]
    } else {
        dec(n / 10).push(digit(n % 10))
    }
}

/// `n` in decimal with zeros in front, up to two digits.
pub open spec fn pad2(n: nat) -> Seq<char> {
    if n < 10 {
        seq!['0'] + dec(n)
    } else {
        dec(n)
    }
}

/// `n` in decimal with zeros in front, up to four digits.
pub open spec fn pad4(n: nat) -> Seq<char> {
    if n < 10 {
        seq!['0', '0', '0'] + dec(n)
    } else if n < 100 {
        seq!['0', '0'] + dec(n)
    } else if n < 1000 {
        seq!['0'] + dec(n)
    } else {
        dec(n)
    }
}

/// `n` in decimal.
pub fn decimal(n: u64) -> (r: String)
    ensures
        r@ == dec(n as nat),
    decreases n,
{
    let mut out = if n < 10 {
        String::new()
    } else {
        decimal(n / 10)
    };
    let d: u8 = 48u8 + (n % 10) as u8;
    out.push(d as char);
    assert(d as char == digit((n % 10) as nat));
    assert(n < 10 ==> out@ == seq![digit(n as nat)]);
    out
}

/// `n` in decimal, with a zero in front below ten.
pub fn decimal_pad2(n: u64) -> (r: String)
    ensures
        r@ == pad2(n as nat),
{
    let mut out = String::new();
    if n < 10 {
        out.push('0');
    }
    let d = decimal(n);
    out.append(d.as_str());
    assert(out@ == pad2(n as nat));
    out
}

/// Whether `c` is an ASCII decimal digit.
pub open spec fn ascii_digit(c: char) -> bool {
    48 <= c as u32 <= 57
}

/// Whether `s` is made of ASCII digits alone.
pub open spec fn all_digits(s: Seq<char>) -> bool {
    forall|i: int| 0 <= i < s.len() ==> ascii_digit(#[trigger] s[i])
}

/// The number that the decimal digits `s` write.
pub open spec fn digits_value(s: Seq<char>) -> nat
    decreases s.len(),
{
    if s.len() == 0 {
        0
    } else {
        10 * digits_value(s.drop_last()) + (s.last() as u32 - 48) as nat
    }
}

/// `s` without one leading plus sign.
pub open spec fn strip_plus(s: Seq<char>) -> Seq<char> {
    if s.len() > 0 && s[0] == '+' {
        s.drop_first()
    } else {
        s
    }
}

/// The number that `s` writes: digits, after an optional plus sign, that fit
/// in 64 bits.
pub open spec fn parsed_u64(s: Seq<char>) -> Option<u64> {
    let d = strip_plus(s);
    if d.len() == 0 || !all_digits(d) || digits_value(d) > u64::MAX {
        None
    } else {
        Some(digits_value(d) as u64)
    }
}

proof fn lemma_digits_value_grows(s: Seq<char>, n: int)
    requires
        0 <= n <= s.len(),
    ensures
        digits_value(s.take(n)) <= digits_value(s),
    decreases s.len(),
{
    if n < s.len() {
        lemma_digits_value_grows(s.drop_last(), n);
        assert(s.drop_last().take(n) == s.take(n));
    } else {
        assert(s.take(n) == s);
    }
}

/// The number that `s` writes, as `u64::from_str` reads it.
pub fn parse_u64(s: &str) -> (r: Option<u64>)
    ensures
        r == parsed_u64(s@),
{
    let v = chars_of(s);
    let start: usize = if v.len() > 0 && v[0] == '+' {
        1
    } else {
        0
    };
    let ghost d = strip_plus(s@);
    assert(d == v@.skip(start as int));
    if start == v.len() {
        return None;
    }
    let mut value: u64 = 0;
    let mut i: usize = start;
    assert(d.take(0) == Seq::<char>::empty());
    while i < v.len()
        invariant
            start <= i <= v@.len(),
            d == v@.skip(start as int),
            d == strip_plus(s@),
            d.len() > 0,
            value == digits_value(d.take(i - start)),
            all_digits(d.take(i - start)),
        decreases v@.len() - i,
    {
        let c: u32 = v[i] as u32;
        assert(d[i - start] == v@[i as int]);
        if c < 48 || c > 57 {
            assert(!ascii_digit(d[i - start]));
            return None;
        }
        let ghost next = d.take(i - start + 1);
        assert(next.drop_last() == d.take(i - start));
        assert(digits_value(next) == 10 * value + (c - 48));
        assert forall|k: int| 0 <= k < next.len() implies ascii_digit(#[trigger] next[k]) by {
            if k < i - start {
                assert(next[k] == d.take(i - start)[k]);
            }
        }
        proof {
            lemma_digits_value_grows(d, i - start + 1);
        }
        let add: u64 = (c - 48) as u64;
        if value > (u64::MAX - add) / 10 {
            assert(10 * value + add > u64::MAX);
            return None;
        }
        value = value * 10 + add;
        i += 1;
    }
    assert(d.take(i - start) == d);
    Some(value)
}

/// `c` with an ASCII capital made small.
pub open spec fn ascii_lower_char(c: char) -> char {
    if 65 <= c as u32 <= 90 {
        (c as u32 + 32) as char
    } else {
        c
    }
}

/// `s` with its ASCII capitals made small.
pub open spec fn ascii_lower_spec(s: Seq<char>) -> Seq<char> {
    s.map_values(|c: char| ascii_lower_char(c))
}

/// `s` with its ASCII capitals made small.
pub fn ascii_lower(s: &str) -> (r: String)
    ensures
        r@ == ascii_lower_spec(s@),
{
    let v = chars_of(s);
    let mut out = String::new();
    let mut i: usize = 0;
    while i < v.len()
        invariant
            i <= v@.len(),
            v@ == s@,
            out@ == ascii_lower_spec(s@.take(i as int)),
        decreases v@.len() - i,
    {
        let u: u32 = v[i] as u32;
        let c: char = if 65 <= u && u <= 90 {
            (u + 32) as u8 as char
        } else {
            v[i]
        };
        assert(c == ascii_lower_char(s@[i as int]));
        out.push(c);
        assert(s@.take(i + 1) == s@.take(i as int).push(s@[i as int]));
        assert(out@ == ascii_lower_spec(s@.take(i + 1)));
        i += 1;
    }
    assert(s@.take(i as int) == s@);
    out
}

/// The first `n` bytes of `s` in UTF-8, where they end between two characters.
pub open spec fn byte_prefix_spec(s: Seq<char>, n: nat) -> Option<Seq<char>> {
    let bytes = encode_utf8(s);
    if is_char_boundary(bytes, n as int) {
        Some(decode_utf8(bytes.take(n as int)))
    } else {
        None
    }
}

/// The first `n` bytes of `s`: what `s.get(..n)` gives.
pub fn byte_prefix(s: &str, n: usize) -> (r: Option<&str>)
    ensures
        match r {
            Some(p) => byte_prefix_spec(s@, n as nat) == Some(p@),
            None => byte_prefix_spec(s@, n as nat) is None,
        },
{
    broadcast use vstd::utf8::group_utf8_lib;

    if !s.is_char_boundary(n) {
        return None;
    }
    let (head, _tail) = s.split_at(n);
    assert(head.spec_bytes() == s.spec_bytes().take(n as int));
    assert(decode_utf8(encode_utf8(head@)) == head@);
    Some(head)
}

proof fn lemma_ascii_prefix(a: Seq<char>, b: Seq<char>)
    requires
        is_ascii_chars(a),
    ensures
        encode_utf8(a + b) == encode_utf8(a) + encode_utf8(b),
        is_char_boundary(encode_utf8(a + b), a.len() as int),
    decreases a.len(),
{
    let s = a + b;
    encode_utf8_valid_utf8(s);
    if a.len() == 0 {
        assert(s == b);
        assert(encode_utf8(a) + encode_utf8(b) == encode_utf8(b));
    } else {
        lemma_ascii_prefix(a.drop_first(), b);
        assert(s.drop_first() == a.drop_first() + b);
        encode_utf8_first_scalar(s);
        encode_utf8_valid_utf8(s.drop_first());
        let first = encode_scalar(a[0] as u32);
        assert('\0' <= a[0] <= '\u{7f}');
        assert(first.len() == 1);
        assert(first + (encode_utf8(a.drop_first()) + encode_utf8(b)) == (first + encode_utf8(
            a.drop_first(),
        )) + encode_utf8(b));
        is_ascii_chars_encode_utf8(a);
        let bytes = encode_utf8(s);
        assert(pop_first_scalar(bytes) == encode_utf8(s.drop_first()));
    }
}

/// The first bytes of a text that begins in ASCII are its first characters.
pub proof fn lemma_byte_prefix(a: Seq<char>, b: Seq<char>)
    requires
        is_ascii_chars(a),
    ensures
        byte_prefix_spec(a + b, a.len()) == Some(a),
{
    lemma_ascii_prefix(a, b);
    is_ascii_chars_encode_utf8(a);
    encode_utf8_decode_utf8(a);
    assert(encode_utf8(a + b).take(a.len() as int) == encode_utf8(a));
}

/// How many bytes a character takes in UTF-8.
pub open spec fn byte_width(c: char) -> nat {
    encode_scalar(c as u32).len()
}

/// Whether `s` takes more than `n` bytes.
pub open spec fn longer_than(s: Seq<char>, n: nat) -> bool {
    encode_utf8(s).len() > n
}

/// The longest beginning of `s` that takes no more than `n` bytes.
pub open spec fn first_bytes(s: Seq<char>, n: nat) -> Seq<char>
    decreases s.len(),
{
    if s.len() == 0 || byte_width(s[0]) > n {
        Seq::empty()
    } else {
        seq![s[0]] + first_bytes(s.drop_first(), (n - byte_width(s[0])) as nat)
    }
}

/// Cutting a text gives a beginning of it, of no more than `n` bytes, to which not
/// one character more could be added; a text that is not longer stays whole.
pub proof fn lemma_cut(s: Seq<char>, n: nat)
    ensures
        !longer_than(first_bytes(s, n), n),
        first_bytes(s, n).is_prefix_of(s),
        !longer_than(s, n) ==> first_bytes(s, n) == s,
        longer_than(s, n) ==> first_bytes(s, n).len() < s.len() && longer_than(
            s.take(first_bytes(s, n).len() as int + 1),
            n,
        ),
    decreases s.len(),
{
    let r = first_bytes(s, n);
    if s.len() == 0 {
        assert(s.take(0) == s);
    } else {
        let w = byte_width(s[0]);
        let rest = s.drop_first();
        assert(encode_utf8(s).len() == w + encode_utf8(rest).len());
        if w > n {
            assert(s.take(0) == r);
            let one = s.take(1);
            assert(one[0] == s[0] && one.drop_first().len() == 0);
            assert(encode_utf8(one).len() == w + encode_utf8(one.drop_first()).len());
        } else {
            let m = (n - w) as nat;
            let q = first_bytes(rest, m);
            lemma_cut(rest, m);
            assert(r[0] == s[0] && r.drop_first() == q);
            assert(encode_utf8(r).len() == w + encode_utf8(q).len());
            assert(q == rest.take(q.len() as int));
            assert(s.take(r.len() as int) == r);
            if longer_than(s, n) {
                let more = s.take(r.len() as int + 1);
                assert(more[0] == s[0]);
                assert(more.drop_first() == rest.take(q.len() as int + 1));
                assert(encode_utf8(more).len() == w + encode_utf8(more.drop_first()).len());
            } else {
                assert(r == s);
            }
        }
    }
}

fn width_of(c: char) -> (r: usize)
    ensures
        r == byte_width(c),
        r > 0,
{
    let u: u32 = c as u32;
    if u <= 0x7f {
        1
    } else if u <= 0x7ff {
        2
    } else if u <= 0xffff {
        3
    } else {
        4
    }
}

/// The longest beginning of `s` that takes no more than `n` bytes; the flag tells
/// whether `s` is longer.
pub fn cut_to_bytes(s: &str, n: usize) -> (r: (&str, bool))
    ensures
        r.0@ == first_bytes(s@, n as nat),
        r.1 == longer_than(s@, n as nat),
{
    proof {
        lemma_cut(s@, n as nat);
    }
    let longer = s.as_bytes().len() > n;
    if !longer {
        return (s, false);
    }
    let v = chars_of(s);
    let mut k: usize = 0;
    let mut left: usize = n;
    assert(v@.skip(0) == v@);
    assert(s@.take(0) + first_bytes(v@, n as nat) == first_bytes(s@, n as nat));
    while k < v.len() && width_of(v[k]) <= left
        invariant
            k <= v@.len(),
            v@ == s@,
            s@.take(k as int) + first_bytes(v@.skip(k as int), left as nat) == first_bytes(
                s@,
                n as nat,
            ),
        decreases v@.len() - k,
    {
        let ghost rest = v@.skip(k as int);
        assert(rest[0] == v@[k as int]);
        assert(rest.drop_first() == v@.skip(k + 1));
        let w: usize = width_of(v[k]);
        assert(s@.take(k as int) + (seq![rest[0]] + first_bytes(
            rest.drop_first(),
            (left - w) as nat,
        )) == s@.take(k + 1) + first_bytes(rest.drop_first(), (left - w) as nat));
        left -= w;
        k += 1;
    }
    proof {
        let rest = v@.skip(k as int);
        if k < v@.len() {
            assert(rest[0] == v@[k as int]);
        }
        assert(first_bytes(rest, left as nat) == Seq::<char>::empty());
        assert(s@.take(k as int) + Seq::<char>::empty() == s@.take(k as int));
    }
    let part = s.substring_char(0, k);
    assert(part@ == s@.take(k as int));
    (part, true)
}

/// Whether every character of `s` passes `p`.
pub open spec fn only(s: Seq<char>, p: spec_fn(char) -> bool) -> bool {
    forall|i: int| 0 <= i < s.len() ==> p(#[trigger] s[i])
}

/// Trimming takes a part out of the text, which has no white space at its ends.
pub proof fn lemma_trim(s: Seq<char>) -> (r: (int, int))
    ensures
        0 <= r.0 <= r.1 <= s.len(),
        trim_spec(s) == s.subrange(r.0, r.1),
        trim_start_spec(s) == s.skip(r.0),
        r.0 < r.1 ==> !white_space(s[r.0]) && !white_space(s[r.1 - 1]),
        forall|k: int| 0 <= k < r.0 ==> white_space(#[trigger] s[k]),
        r.0 < r.1 ==> forall|k: int| r.1 <= k < s.len() ==> white_space(#[trigger] s[k]),
{
    let a = lemma_trim_start_part(s);
    let t = s.skip(a);
    let b = lemma_trim_end_part(t);
    assert(t.take(b) == s.subrange(a, a + b));
    assert forall|k: int| a + b <= k < s.len() implies white_space(#[trigger] s[k]) by {
        assert(t[k - a] == s[k]);
    }
    if b > 0 {
        assert(t.take(b)[0] == s[a]);
        if white_space(s[a]) {
            assert(white_space(t[0]));
        }
    }
    (a, a + b)
}

proof fn lemma_trim_start_part(s: Seq<char>) -> (a: int)
    ensures
        0 <= a <= s.len(),
        trim_start_spec(s) == s.skip(a),
        a < s.len() ==> !white_space(s[a]),
        forall|k: int| 0 <= k < a ==> white_space(#[trigger] s[k]),
    decreases s.len(),
{
    if s.len() > 0 && white_space(s[0]) {
        let a = lemma_trim_start_part(s.drop_first());
        assert(s.drop_first().skip(a) == s.skip(a + 1));
        assert forall|k: int| 0 <= k < a + 1 implies white_space(#[trigger] s[k]) by {
            if k > 0 {
                assert(s.drop_first()[k - 1] == s[k]);
            }
        }
        a + 1
    } else {
        assert(s.skip(0) == s);
        0
    }
}

proof fn lemma_trim_end_part(s: Seq<char>) -> (b: int)
    ensures
        0 <= b <= s.len(),
        trim_end_spec(s) == s.take(b),
        b > 0 ==> !white_space(s[b - 1]),
        forall|k: int| b <= k < s.len() ==> white_space(#[trigger] s[k]),
    decreases s.len(),
{
    if s.len() > 0 && white_space(s.last()) {
        let b = lemma_trim_end_part(s.drop_last());
        assert(s.drop_last().take(b) == s.take(b));
        assert forall|k: int| b <= k < s.len() implies white_space(#[trigger] s[k]) by {
            if k < s.len() - 1 {
                assert(s.drop_last()[k] == s[k]);
            }
        }
        b
    } else {
        assert(s.take(s.len() as int) == s);
        s.len() as int
    }
}

/// Trimming a trimmed text changes nothing.
pub proof fn law_trim_once_is_enough(s: Seq<char>)
    ensures
        trim_spec(trim_spec(s)) == trim_spec(s),
{
    let r = lemma_trim(s);
    let t = trim_spec(s);
    let q = lemma_trim(t);
    if t.len() > 0 {
        assert(!white_space(t[0]));
        assert(!white_space(t[t.len() - 1]));
        assert(q.0 == 0);
        assert(q.1 == t.len() || q.0 == q.1);
        if q.0 == q.1 {
            assert(trim_start_spec(t) == t);
            assert(trim_end_spec(t) == t);
        }
    }
}

/// Words are nonempty, hold no white space, and have their characters from the
/// text.
pub proof fn lemma_words(s: Seq<char>, p: spec_fn(char) -> bool)
    requires
        only(s, p),
    ensures
        forall|k: int|
            0 <= k < words_spec(s).len() ==> (#[trigger] words_spec(s)[k]).len() > 0 && only(
                words_spec(s)[k],
                |c: char| p(c) && !white_space(c),
            ),
    decreases s.len(),
{
    let t = trim_start_spec(s);
    let a = lemma_trim_start_part(s);
    if t.len() > 0 {
        let n = word_len(t) as int;
        lemma_trim_start(s);
        lemma_word_len(t);
        lemma_word_is_dark(t);
        let rest = t.skip(n);
        assert forall|i: int| 0 <= i < rest.len() implies p(#[trigger] rest[i]) by {
            assert(rest[i] == s[a + n + i]);
        }
        lemma_words(rest, p);
        let ws = words_spec(s);
        assert forall|k: int| 0 <= k < ws.len() implies (#[trigger] ws[k]).len() > 0 && only(
            ws[k],
            |c: char| p(c) && !white_space(c),
        ) by {
            if k == 0 {
                assert forall|i: int| 0 <= i < ws[0].len() implies p(#[trigger] ws[0][i])
                    && !white_space(ws[0][i]) by {
                    assert(ws[0][i] == t[i]);
                    assert(t[i] == s[a + i]);
                }
            } else {
                assert(ws[k] == words_spec(rest)[k - 1]);
            }
        }
    }
}

proof fn lemma_word_is_dark(s: Seq<char>)
    ensures
        word_len(s) <= s.len(),
        forall|i: int| 0 <= i < word_len(s) ==> !white_space(#[trigger] s[i]),
    decreases s.len(),
{
    if s.len() > 0 && !white_space(s[0]) {
        lemma_word_is_dark(s.drop_first());
        assert forall|i: int| 0 <= i < word_len(s) implies !white_space(#[trigger] s[i]) by {
            if i > 0 {
                assert(s.drop_first()[i - 1] == s[i]);
            }
        }
    }
}

/// Whether no two neighbouring characters of `s` are white space.
pub open spec fn single_spaced(s: Seq<char>) -> bool {
    forall|i: int| 0 <= i < s.len() - 1 && white_space(#[trigger] s[i]) ==> !white_space(s[i + 1])
}

/// Words joined by single spaces are single-spaced.
pub proof fn lemma_joined_words(ws: Seq<Seq<char>>, p: spec_fn(char) -> bool)
    requires
        forall|k: int|
            0 <= k < ws.len() ==> (#[trigger] ws[k]).len() > 0 && only(
                ws[k],
                |c: char| p(c) && !white_space(c),
            ),
        p(' '),
    ensures
        only(join_spec(ws, seq![' ']), p),
        single_spaced(join_spec(ws, seq![' '])),
        ws.len() > 0 ==> join_spec(ws, seq![' ']).len() > 0 && !white_space(
            join_spec(ws, seq![' ']).last(),
        ),
    decreases ws.len(),
{
    let j = join_spec(ws, seq![' ']);
    if ws.len() == 1 {
        assert forall|i: int| 0 <= i < j.len() implies p(#[trigger] j[i]) && !white_space(j[i]) by {
            assert(ws[0][i] == j[i]);
        }
    } else if ws.len() > 1 {
        let head = ws.drop_last();
        let h = join_spec(head, seq![' ']);
        let w = ws.last();
        assert forall|k: int| 0 <= k < head.len() implies (#[trigger] head[k]).len() > 0 && only(
            head[k],
            |c: char| p(c) && !white_space(c),
        ) by {
            assert(head[k] == ws[k]);
        }
        lemma_joined_words(head, p);
        assert(ws[ws.len() - 1].len() > 0);
        assert(only(w, |c: char| p(c) && !white_space(c)));
        assert forall|i: int| 0 <= i < j.len() implies p(#[trigger] j[i]) && (i > h.len()
            ==> !white_space(j[i])) by {
            if i < h.len() {
                assert(j[i] == h[i]);
            } else if i > h.len() {
                assert(j[i] == w[i - h.len() - 1]);
            }
        }
        assert forall|i: int|
            0 <= i < j.len() - 1 && white_space(#[trigger] j[i]) implies !white_space(j[i + 1]) by {
            if i < h.len() - 1 {
                assert(j[i] == h[i] && j[i + 1] == h[i + 1]);
            } else if i == h.len() - 1 {
                assert(j[i] == h.last());
            }
        }
    }
}

/// The number that a row of decimal digits stands for.
pub open spec fn number_written(s: Seq<char>) -> int
    decreases s.len(),
{
    if s.len() == 0 {
        0
    } else {
        10 * number_written(s.drop_last()) + (s.last() as int - '0' as int)
    }
}

/// Whether `s` is a row of decimal digits.
pub open spec fn row_of_digits(s: Seq<char>) -> bool {
    s.len() > 0 && forall|i: int| 0 <= i < s.len() ==> '0' <= #[trigger] s[i] <= '9'
}

/// A number in decimal reads back as the number, and has no zeros in front.
pub proof fn law_decimal_reads_back(n: nat)
    ensures
        row_of_digits(dec(n)),
        number_written(dec(n)) == n,
        dec(n).len() > 1 ==> dec(n)[0] != '0',
        n > 0 ==> dec(n)[0] != '0',
    decreases n,
{
    if n < 10 {
        let s = dec(n);
        assert(s.drop_last() == Seq::<char>::empty());
        assert(number_written(s.drop_last()) == 0);
    } else {
        let head = dec(n / 10);
        law_decimal_reads_back(n / 10);
        assert(dec(n).drop_last() == head);
        assert forall|i: int| 0 <= i < dec(n).len() implies '0' <= #[trigger] dec(n)[i] <= '9' by {
            if i < head.len() {
                assert(dec(n)[i] == head[i]);
            }
        }
    }
}

proof fn lemma_zero_in_front(s: Seq<char>)
    requires
        row_of_digits(s),
    ensures
        row_of_digits(seq!['0'] + s),
        number_written(seq!['0'] + s) == number_written(s),
    decreases s.len(),
{
    let z = seq!['0'] + s;
    assert forall|i: int| 0 <= i < z.len() implies '0' <= #[trigger] z[i] <= '9' by {
        if i > 0 {
            assert(z[i] == s[i - 1]);
        }
    }
    if s.len() == 1 {
        assert(z.drop_last() == seq!['0']);
        assert(seq!['0'].drop_last() == Seq::<char>::empty());
        assert(s.drop_last() == Seq::<char>::empty());
        reveal_with_fuel(number_written, 3);
    } else {
        let h = s.drop_last();
        assert forall|i: int| 0 <= i < h.len() implies '0' <= #[trigger] h[i] <= '9' by {
            assert(h[i] == s[i]);
        }
        lemma_zero_in_front(h);
        assert(z.drop_last() == seq!['0'] + h);
    }
}

/// A number padded to two digits reads back as the number, and has a zero in front only
/// to make two.
pub proof fn law_padded_decimal_reads_back(n: nat)
    ensures
        row_of_digits(pad2(n)),
        number_written(pad2(n)) == n,
        pad2(n).len() >= 2,
        pad2(n).len() > 2 ==> pad2(n)[0] != '0',
        n < 100 ==> pad2(n).len() == 2,
{
    law_decimal_reads_back(n);
    if n < 10 {
        lemma_zero_in_front(dec(n));
    } else {
        assert(dec(n).len() == dec(n / 10).len() + 1);
        law_decimal_reads_back(n / 10);
    }
}

/// A number is read exactly where digits stand, behind a plus sign or not, and is the one
/// that they write, as far as 64 bits hold it.
pub proof fn law_numbers_are_read(s: Seq<char>)
    ensures
        ({
            let d = if s.len() > 0 && s[0] == '+' {
                s.skip(1)
            } else {
                s
            };
            match parsed_u64(s) {
                Some(v) => row_of_digits(d) && number_written(d) == v,
                None => !row_of_digits(d) || number_written(d) > u64::MAX,
            }
        }),
{
    let d = strip_plus(s);
    assert(s.len() > 0 ==> s.skip(1) == s.drop_first());
    if d.len() > 0 && all_digits(d) {
        lemma_values_agree(d);
        assert forall|i: int| 0 <= i < d.len() implies '0' <= #[trigger] d[i] <= '9' by {
            assert(ascii_digit(d[i]));
            lemma_code_point(d[i]);
        }
    } else if row_of_digits(d) {
        assert forall|i: int| 0 <= i < d.len() implies ascii_digit(#[trigger] d[i]) by {
            assert('0' <= d[i] <= '9');
        }
    }
}

proof fn lemma_code_point(c: char)
    ensures
        c as u32 as int == c as int,
{
}

proof fn lemma_values_agree(s: Seq<char>)
    requires
        all_digits(s),
    ensures
        digits_value(s) == number_written(s),
    decreases s.len(),
{
    if s.len() > 0 {
        let h = s.drop_last();
        assert forall|i: int| 0 <= i < h.len() implies ascii_digit(#[trigger] h[i]) by {
            assert(h[i] == s[i]);
        }
        lemma_values_agree(h);
        assert(ascii_digit(s[s.len() - 1]));
        lemma_code_point(s.last());
    }
}

/// Trimming takes off white space at the ends and nothing else: what is left stands in the
/// text, between white space, and neither begins nor ends with it.
pub proof fn law_trimming_takes_white_space(s: Seq<char>) -> (r: (Seq<char>, Seq<char>))
    ensures
        s == r.0 + trim_spec(s) + r.1,
        forall|i: int| 0 <= i < r.0.len() ==> white_space(#[trigger] r.0[i]),
        forall|i: int| 0 <= i < r.1.len() ==> white_space(#[trigger] r.1[i]),
        trim_spec(s).len() > 0 ==> !white_space(trim_spec(s)[0]) && !white_space(
            trim_spec(s).last(),
        ),
{
    let (a, b) = lemma_trim(s);
    let (x, y) = (s.take(a), s.skip(b));
    assert(s == x + s.subrange(a, b) + y);
    if a == b {
        let c = lemma_trim_start_part(s);
        let d = lemma_trim_end_part(s.skip(c));
        assert(trim_spec(s) == s.skip(c).take(d));
        assert(d == 0);
        assert forall|i: int| 0 <= i < y.len() implies white_space(#[trigger] y[i]) by {
            let k = b + i;
            assert(y[i] == s[k]);
            if k >= c {
                assert(s.skip(c)[k - c] == s[k]);
            }
        }
    } else {
        assert forall|i: int| 0 <= i < y.len() implies white_space(#[trigger] y[i]) by {
            assert(y[i] == s[b + i]);
        }
    }
    (x, y)
}

/// Trimming at the end takes off the white space there and nothing else.
pub proof fn law_trimming_the_end_takes_white_space(s: Seq<char>) -> (y: Seq<char>)
    ensures
        s == trim_end_spec(s) + y,
        forall|i: int| 0 <= i < y.len() ==> white_space(#[trigger] y[i]),
        trim_end_spec(s).len() > 0 ==> !white_space(trim_end_spec(s).last()),
{
    let b = lemma_trim_end_part(s);
    let y = s.skip(b);
    assert(s == s.take(b) + y);
    y
}

/// A line ends with its line feed, and one carriage return before that is no part of it.
pub proof fn law_lines_end_at_line_feeds(line: Seq<char>, rest: Seq<char>)
    requires
        forall|i: int| 0 <= i < line.len() ==> #[trigger] line[i] != '\n',
    ensures
        lines_spec(line.push('\n') + rest) == seq![
            if line.len() > 0 && line.last() == '\r' {
                line.drop_last()
            } else {
                line
            },
        ] + lines_spec(rest),
        line.len() > 0 ==> lines_spec(line) == seq![line],
        lines_spec(Seq::<char>::empty()) == Seq::<Seq<char>>::empty(),
{
    let s = line.push('\n') + rest;
    lemma_first_index(s, '\n');
    let n = first_index(s, '\n') as int;
    assert(s[line.len() as int] == '\n');
    if n < line.len() {
        assert(s[n] == line[n]);
    }
    assert(s.take(n) == line);
    assert(s.skip(n + 1) == rest);
    lemma_first_index(line, '\n');
}

proof fn lemma_word_ends(w: Seq<char>, rest: Seq<char>)
    requires
        forall|i: int| 0 <= i < w.len() ==> !white_space(#[trigger] w[i]),
        rest.len() == 0 || white_space(rest[0]),
    ensures
        word_len(w + rest) == w.len(),
    decreases w.len(),
{
    let s = w + rest;
    if w.len() > 0 {
        let v = w.drop_first();
        assert forall|i: int| 0 <= i < v.len() implies !white_space(#[trigger] v[i]) by {
            assert(v[i] == w[i + 1]);
        }
        lemma_word_ends(v, rest);
        assert(s.drop_first() == v + rest);
        assert(!white_space(w[0]));
    } else {
        assert(s == rest);
    }
}

/// Words are what stands between white space, in order: white space in front counts for
/// nothing, and a run of other characters up to white space or the end is one word.
pub proof fn law_words_stand_between_white_space(w: Seq<char>, rest: Seq<char>, c: char)
    requires
        forall|i: int| 0 <= i < w.len() ==> !white_space(#[trigger] w[i]),
        rest.len() == 0 || white_space(rest[0]),
    ensures
        w.len() > 0 ==> words_spec(w + rest) == seq![w] + words_spec(rest),
        white_space(c) ==> words_spec(seq![c] + rest) == words_spec(rest),
        words_spec(Seq::<char>::empty()) == Seq::<Seq<char>>::empty(),
{
    if w.len() > 0 {
        let s = w + rest;
        assert(!white_space(w[0]));
        assert(s[0] == w[0]);
        lemma_word_ends(w, rest);
        assert(s.take(w.len() as int) == w);
        assert(s.skip(w.len() as int) == rest);
    }
    if white_space(c) {
        let s = seq![c] + rest;
        assert(s.drop_first() == rest);
        assert(trim_start_spec(s) == trim_start_spec(rest));
    }
}

/// Parts are joined in order, with the separator between each two.
pub proof fn law_joining_puts_separators_between(
    parts: Seq<Seq<char>>,
    part: Seq<char>,
    sep: Seq<char>,
)
    ensures
        join_spec(seq![part], sep) == part,
        parts.len() > 0 ==> join_spec(parts.push(part), sep) == join_spec(parts, sep) + sep + part,
        parts.len() > 0 ==> join_spec(seq![part] + parts, sep) == part + sep + join_spec(parts, sep),
    decreases parts.len(),
{
    assert(parts.push(part).drop_last() == parts);
    if parts.len() > 0 {
        let all = seq![part] + parts;
        assert(all.drop_last() == seq![part] + parts.drop_last());
        assert(all.last() == parts.last());
        if parts.len() > 1 {
            law_joining_puts_separators_between(parts.drop_last(), part, sep);
            assert(join_spec(all, sep) == (part + sep + join_spec(parts.drop_last(), sep)) + sep
                + parts.last());
            assert(join_spec(all, sep) == part + sep + join_spec(parts, sep));
        } else {
            assert(all.drop_last() == seq![part]);
            assert(parts[0] == parts.last());
            assert(join_spec(parts, sep) == parts[0]);
        }
    }
}

/// A text is found where it first stands.
pub proof fn law_first_place_is_found(texts: Seq<Seq<char>>, t: Seq<char>)
    ensures
        match first_at(texts, t) {
            Some(k) => 0 <= k < texts.len() && texts[k] == t && forall|j: int|
                0 <= j < k ==> #[trigger] texts[j] != t,
            None => forall|j: int| 0 <= j < texts.len() ==> #[trigger] texts[j] != t,
        },
    decreases texts.len(),
{
    if texts.len() > 0 {
        law_first_place_is_found(texts.drop_last(), t);
        let earlier = texts.drop_last();
        assert forall|j: int| 0 <= j < earlier.len() implies #[trigger] texts[j] == earlier[j] by {}
    }
}

/// Capitals from A to Z become small, and nothing else changes.
pub proof fn law_only_capitals_change(s: Seq<char>, i: int)
    requires
        0 <= i < s.len(),
    ensures
        ascii_lower_spec(s).len() == s.len(),
        'A' <= s[i] <= 'Z' ==> ascii_lower_spec(s)[i] as int == s[i] as int + 32,
        !('A' <= s[i] <= 'Z') ==> ascii_lower_spec(s)[i] == s[i],
{
    lemma_code_point(s[i]);
}

/// A text occurs in another where that is the text with something before and behind.
pub proof fn law_occurrence(p: Seq<char>, v: Seq<char>)
    ensures
        occurs_in(p, v) <==> exists|a: Seq<char>, b: Seq<char>| v == #[trigger] (a + p + b),
{
    if occurs_in(p, v) {
        let at = choose|at: int| #[trigger] found_at(v, p, at);
        let (a, b) = (v.take(at), v.skip(at + p.len()));
        assert(v == a + p + b);
    }
    if exists|a: Seq<char>, b: Seq<char>| v == #[trigger] (a + p + b) {
        let (a, b) = choose|a: Seq<char>, b: Seq<char>| v == #[trigger] (a + p + b);
        assert((a + p + b).subrange(a.len() as int, (a.len() + p.len()) as int) == p);
        assert(found_at(v, p, a.len() as int));
    }
}

/// An ending goes as often as it stands there.
pub proof fn law_endings_go(s: Seq<char>, suffix: Seq<char>)
    requires
        suffix.len() > 0,
    ensures
        without_suffix(s + suffix, suffix) == without_suffix(s, suffix),
        !suffix.is_suffix_of(s) ==> without_suffix(s, suffix) == s,
        !suffix.is_suffix_of(without_suffix(s, suffix)),
    decreases s.len(),
{
    let t = s + suffix;
    assert(t.subrange(t.len() - suffix.len(), t.len() as int) == suffix);
    assert(without_end(t, suffix) == s);
    if suffix.is_suffix_of(s) {
        law_endings_go(without_end(s, suffix), suffix);
    }
}

/// A text is cut to the longest beginning that fits: it takes no more bytes than allowed,
/// one character more would, and a text that fits is not cut.
pub proof fn law_the_cut_is_the_longest_that_fits(s: Seq<char>, n: nat)
    ensures
        first_bytes(s, n).is_prefix_of(s),
        encode_utf8(first_bytes(s, n)).len() <= n,
        encode_utf8(s).len() <= n ==> first_bytes(s, n) == s,
        encode_utf8(s).len() > n ==> first_bytes(s, n).len() < s.len() && encode_utf8(
            s.take(first_bytes(s, n).len() as int + 1),
        ).len() > n,
        longer_than(s, n) <==> encode_utf8(s).len() > n,
{
    lemma_cut(s, n);
}

/// White space is the tab and the other breaks of line and page, the space, and the spaces
/// and separators that Unicode has beside it.
pub proof fn law_white_space_is_what_unicode_says(c: char)
    ensures
        white_space(c) <==> {
            ||| c == '\t' || c == '\n' || c == '\u{b}' || c == '\u{c}' || c == '\r'
            ||| c == ' ' || c == '\u{85}' || c == '\u{a0}' || c == '\u{1680}'
            ||| '\u{2000}' <= c <= '\u{200a}'
            ||| c == '\u{2028}' || c == '\u{2029}' || c == '\u{202f}'
            ||| c == '\u{205f}' || c == '\u{3000}'
        },
        control(c) <==> c < ' ' || '\u{7f}' <= c < '\u{a0}',
{
    lemma_code_point(c);
}

/// A number padded to four digits reads back as the number, and has zeros in front only
/// to make four.
pub proof fn law_four_digits_read_back(n: nat)
    ensures
        row_of_digits(pad4(n)),
        number_written(pad4(n)) == n,
        pad4(n).len() >= 4,
        pad4(n).len() > 4 ==> pad4(n)[0] != '0',
        n < 10000 ==> pad4(n).len() == 4,
{
    law_decimal_reads_back(n);
    reveal_with_fuel(dec, 5);
    let d = dec(n);
    let one = seq!['0'] + d;
    let two = seq!['0'] + one;
    if n < 1000 {
        lemma_zero_in_front(d);
        if n < 100 {
            lemma_zero_in_front(one);
            assert(two == seq!['0', '0'] + d);
            if n < 10 {
                lemma_zero_in_front(two);
                assert(seq!['0'] + two == seq!['0', '0', '0'] + d);
            }
        }
    }
}

} // verus!
