//! Texts as YAML scalars, for the front matter.
//!
//! A text stands as it is unless a reader would stumble over it or take it for
//! something else. Readers go by YAML 1.1 or 1.2; what either takes for a number, a
//! date or a word of its own is quoted.

use vstd::prelude::*;
use vstd::string::*;

use crate::text::{
    chars_of, contains, found_at, law_trimming_takes_white_space, occurs_in, row_of_digits, same_text,
    trim, trim_spec, white_space,
};

verus! {

/// Whether YAML gives `c` a meaning of its own at the start of a scalar.
pub open spec fn yaml_indicator(c: char) -> bool {
    c == '-' || c == '?' || c == ':' || c == '&' || c == '*' || c == '!' || c == '|' || c == '>'
        || c == '\'' || c == '"' || c == '%' || c == '@' || c == '`' || c == '[' || c == '{' || c
        == '#' || c == ',' || c == ']' || c == '}'
}

/// Whether `c` ends a line.
pub open spec fn line_break(c: char) -> bool {
    c == '\n' || c == '\r' || c == '\u{85}' || c == '\u{2028}' || c == '\u{2029}'
}

pub open spec fn has_line_break(v: Seq<char>) -> bool {
    exists|k: int| 0 <= k < v.len() && line_break(#[trigger] v[k])
}

/// Whether `v` is a word that stands for nothing, a truth value, a number without
/// digits or a key of YAML's own.
pub open spec fn yaml_word(v: Seq<char>) -> bool {
    ||| v == "~"@
    ||| v == "null"@
    ||| v == "Null"@
    ||| v == "NULL"@
    ||| v == "true"@
    ||| v == "True"@
    ||| v == "TRUE"@
    ||| v == "false"@
    ||| v == "False"@
    ||| v == "FALSE"@
    ||| v == "yes"@
    ||| v == "Yes"@
    ||| v == "YES"@
    ||| v == "no"@
    ||| v == "No"@
    ||| v == "NO"@
    ||| v == "on"@
    ||| v == "On"@
    ||| v == "ON"@
    ||| v == "off"@
    ||| v == "Off"@
    ||| v == "OFF"@
    ||| v == "y"@
    ||| v == "Y"@
    ||| v == "n"@
    ||| v == "N"@
    ||| v == ".inf"@
    ||| v == ".Inf"@
    ||| v == ".INF"@
    ||| v == "+.inf"@
    ||| v == "+.Inf"@
    ||| v == "+.INF"@
    ||| v == ".nan"@
    ||| v == ".NaN"@
    ||| v == ".NAN"@
    ||| v == "<<"@
    ||| v == "="@
}

pub open spec fn digit(c: char) -> bool {
    '0' <= c <= '9'
}

/// Where the digits, and the underscores among them, end that stand at `i`.
pub open spec fn digits_end(v: Seq<char>, i: int) -> int
    decreases v.len() - i,
{
    if 0 <= i < v.len() && (digit(v[i]) || v[i] == '_') {
        digits_end(v, i + 1)
    } else {
        i
    }
}

/// Whether nothing stands at `i`, or an exponent.
pub open spec fn exponent_or_end(v: Seq<char>, i: int) -> bool {
    i == v.len() || (i + 1 < v.len() && (v[i] == 'e' || v[i] == 'E') && {
        let k = if v[i + 1] == '+' || v[i + 1] == '-' {
            i + 2
        } else {
            i + 1
        };
        k < v.len() && digit(v[k]) && digits_end(v, k) == v.len()
    })
}

/// Where the parts to the base of sixty end, `:30` each, that stand at `i`.
pub open spec fn sixties_end(v: Seq<char>, i: int) -> int
    decreases v.len() - i,
{
    if 0 <= i && i + 1 < v.len() && v[i] == ':' && digit(v[i + 1]) {
        if i + 2 < v.len() && digit(v[i + 2]) {
            if v[i + 1] <= '5' {
                sixties_end(v, i + 3)
            } else {
                i
            }
        } else {
            sixties_end(v, i + 2)
        }
    } else {
        i
    }
}

/// Whether the number whose whole digits end at `j` goes on to the base of sixty, with
/// or without a fraction.
pub open spec fn goes_on_in_sixties(v: Seq<char>, j: int) -> bool {
    let k = sixties_end(v, j);
    k > j && (k == v.len() || (v[k] == '.' && digits_end(v, k + 1) == v.len()))
}

/// Whether `c` is a digit to the base that `x`, `o` or `b` stands for.
pub open spec fn based_digit(base: char, c: char) -> bool {
    match base {
        'x' => digit(c) || 'a' <= c <= 'f' || 'A' <= c <= 'F' || c == '_',
        'o' => '0' <= c <= '7' || c == '_',
        'b' => c == '0' || c == '1' || c == '_',
        _ => false,
    }
}

/// Whether a number to another base stands at `i`, such as `0x1f`.
pub open spec fn based_number(v: Seq<char>, i: int) -> bool {
    i + 2 < v.len() && v[i] == '0' && forall|k: int|
        i + 2 <= k < v.len() ==> based_digit(v[i + 1], #[trigger] v[k])
}

/// Whether a number without its sign stands at `i`, to the end.
pub open spec fn number_at(v: Seq<char>, i: int) -> bool {
    if i >= v.len() {
        false
    } else if digit(v[i]) {
        let j = digits_end(v, i);
        ||| exponent_or_end(v, j)
        ||| j < v.len() && v[j] == '.' && exponent_or_end(v, digits_end(v, j + 1))
        ||| goes_on_in_sixties(v, j)
        ||| based_number(v, i)
    } else {
        v[i] == '.' && i + 1 < v.len() && digit(v[i + 1]) && exponent_or_end(
            v,
            digits_end(v, i + 1),
        )
    }
}

/// Whether `v` is written like a number.
pub open spec fn number(v: Seq<char>) -> bool {
    if v.len() > 0 && (v[0] == '+' || v[0] == '-') {
        number_at(v, 1)
    } else {
        number_at(v, 0)
    }
}

/// Whether two digits stand at `i`.
pub open spec fn two_digits(v: Seq<char>, i: int) -> bool {
    i + 2 <= v.len() && digit(v[i]) && digit(v[i + 1])
}

/// Where one or two digits end that stand at `i`.
pub open spec fn short_end(v: Seq<char>, i: int) -> int {
    if two_digits(v, i) {
        i + 2
    } else if i < v.len() && digit(v[i]) {
        i + 1
    } else {
        i
    }
}

/// Where the spaces and tabs end that stand at `i`.
pub open spec fn blanks_end(v: Seq<char>, i: int) -> int
    decreases v.len() - i,
{
    if 0 <= i < v.len() && (v[i] == ' ' || v[i] == '\t') {
        blanks_end(v, i + 1)
    } else {
        i
    }
}

/// Whether nothing stands at `i`, or a zone such as `Z` or `+02:00`.
pub open spec fn zone_or_end(v: Seq<char>, i: int) -> bool {
    if i >= v.len() {
        true
    } else if v[i] == 'Z' {
        i + 1 == v.len()
    } else {
        let h = short_end(v, i + 1);
        (v[i] == '+' || v[i] == '-') && h > i + 1 && (h == v.len() || (v[h] == ':' && two_digits(
            v,
            h + 1,
        ) && h + 3 == v.len()))
    }
}

/// Whether a time of day stands at `i`, to the end, with its seconds.
pub open spec fn time_at(v: Seq<char>, i: int) -> bool {
    let h = short_end(v, i);
    &&& h > i
    &&& h + 6 <= v.len()
    &&& v[h] == ':' && two_digits(v, h + 1) && v[h + 3] == ':' && two_digits(v, h + 4)
    &&& zone_or_end(
        v,
        blanks_end(
            v,
            if h + 6 < v.len() && v[h + 6] == '.' {
                digits_end(v, h + 7)
            } else {
                h + 6
            },
        ),
    )
}

/// Whether `v` is written like a date, alone or with a time of day.
pub open spec fn date(v: Seq<char>) -> bool {
    let a = short_end(v, 5);
    let b = short_end(v, a + 1);
    &&& two_digits(v, 0) && two_digits(v, 2)
    &&& 5 < a < v.len() && v[4] == '-' && v[a] == '-'
    &&& b > a + 1
    &&& if b == v.len() {
        b == 10
    } else if v[b] == 'T' || v[b] == 't' {
        time_at(v, b + 1)
    } else {
        blanks_end(v, b) > b && time_at(v, blanks_end(v, b))
    }
}

/// Whether a reader takes `v`, as it stands, for something other than a text.
pub open spec fn read_otherwise(v: Seq<char>) -> bool {
    yaml_word(v) || number(v) || date(v)
}

/// Whether `v` cannot stand in YAML as it is.
pub open spec fn needs_quoting(v: Seq<char>) -> bool {
    ||| v.len() == 0
    ||| yaml_indicator(v[0])
    ||| occurs_in(": "@, v)
    ||| occurs_in(":\t"@, v)
    ||| occurs_in(" #"@, v)
    ||| occurs_in("\t#"@, v)
    ||| v.last() == ':'
    ||| trim_spec(v) != v
    ||| has_line_break(v)
    ||| read_otherwise(v)
}

/// `v` with each single quote doubled.
pub open spec fn doubled(v: Seq<char>) -> Seq<char>
    decreases v.len(),
{
    if v.len() == 0 {
        Seq::empty()
    } else if v.last() == '\'' {
        doubled(v.drop_last()).push('\'').push('\'')
    } else {
        doubled(v.drop_last()).push(v.last())
    }
}

/// `v` as a YAML scalar, in single quotes where it needs them.
pub open spec fn scalar(v: Seq<char>) -> Seq<char> {
    if needs_quoting(v) {
        seq!['\''] + doubled(v) + seq!['\'']
    } else {
        v
    }
}

fn is_yaml_indicator(c: char) -> (r: bool)
    ensures
        r == yaml_indicator(c),
{
    c == '-' || c == '?' || c == ':' || c == '&' || c == '*' || c == '!' || c == '|' || c == '>'
        || c == '\'' || c == '"' || c == '%' || c == '@' || c == '`' || c == '[' || c == '{' || c
        == '#' || c == ',' || c == ']' || c == '}'
}

fn breaks_line(v: &[char]) -> (r: bool)
    ensures
        r == has_line_break(v@),
{
    let mut k: usize = 0;
    while k < v.len()
        invariant
            k <= v@.len(),
            forall|j: int| 0 <= j < k ==> !line_break(#[trigger] v@[j]),
        decreases v@.len() - k,
    {
        let c = v[k];
        if c == '\n' || c == '\r' || c == '\u{85}' || c == '\u{2028}' || c == '\u{2029}' {
            return true;
        }
        k += 1;
    }
    false
}

fn is_yaml_word(v: &str) -> (r: bool)
    ensures
        r == yaml_word(v@),
{
    same_text(v, "~") || same_text(v, "null") || same_text(v, "Null") || same_text(v, "NULL")
        || same_text(v, "true") || same_text(v, "True") || same_text(v, "TRUE")
        || same_text(v, "false") || same_text(v, "False") || same_text(v, "FALSE")
        || same_text(v, "yes") || same_text(v, "Yes") || same_text(v, "YES") || same_text(v, "no")
        || same_text(v, "No") || same_text(v, "NO") || same_text(v, "on") || same_text(v, "On")
        || same_text(v, "ON") || same_text(v, "off") || same_text(v, "Off") || same_text(v, "OFF")
        || same_text(v, "y") || same_text(v, "Y") || same_text(v, "n") || same_text(v, "N")
        || same_text(v, ".inf") || same_text(v, ".Inf") || same_text(v, ".INF")
        || same_text(v, "+.inf") || same_text(v, "+.Inf") || same_text(v, "+.INF")
        || same_text(v, ".nan") || same_text(v, ".NaN") || same_text(v, ".NAN")
        || same_text(v, "<<") || same_text(v, "=")
}

fn is_digit(c: char) -> (r: bool)
    ensures
        r == digit(c),
{
    '0' <= c && c <= '9'
}

fn skip_digits(v: &[char], i: usize) -> (r: usize)
    requires
        i <= v@.len(),
    ensures
        i <= r <= v@.len(),
        r == digits_end(v@, i as int),
{
    let mut k: usize = i;
    while k < v.len() && (is_digit(v[k]) || v[k] == '_')
        invariant
            i <= k <= v@.len(),
            digits_end(v@, i as int) == digits_end(v@, k as int),
        decreases v@.len() - k,
    {
        k += 1;
    }
    k
}

fn has_exponent_or_ends(v: &[char], i: usize) -> (r: bool)
    requires
        i <= v@.len(),
    ensures
        r == exponent_or_end(v@, i as int),
{
    if i == v.len() {
        return true;
    }
    if v.len() - i < 2 || !(v[i] == 'e' || v[i] == 'E') {
        return false;
    }
    let k: usize = if v[i + 1] == '+' || v[i + 1] == '-' {
        i + 2
    } else {
        i + 1
    };
    k < v.len() && is_digit(v[k]) && skip_digits(v, k) == v.len()
}

fn skip_sixties(v: &[char], i: usize) -> (r: usize)
    requires
        i <= v@.len(),
    ensures
        i <= r <= v@.len(),
        r == sixties_end(v@, i as int),
{
    let mut k: usize = i;
    while v.len() - k >= 2 && v[k] == ':' && is_digit(v[k + 1])
        invariant
            i <= k <= v@.len(),
            sixties_end(v@, i as int) == sixties_end(v@, k as int),
        decreases v@.len() - k,
    {
        if v.len() - k > 2 && is_digit(v[k + 2]) {
            if v[k + 1] > '5' {
                return k;
            }
            k += 3;
        } else {
            k += 2;
        }
    }
    k
}

fn is_in_sixties(v: &[char], j: usize) -> (r: bool)
    requires
        j <= v@.len(),
    ensures
        r == goes_on_in_sixties(v@, j as int),
{
    let k: usize = skip_sixties(v, j);
    k > j && (k == v.len() || (v[k] == '.' && skip_digits(v, k + 1) == v.len()))
}

fn is_based_digit(base: char, c: char) -> (r: bool)
    ensures
        r == based_digit(base, c),
{
    match base {
        'x' => is_digit(c) || ('a' <= c && c <= 'f') || ('A' <= c && c <= 'F') || c == '_',
        'o' => ('0' <= c && c <= '7') || c == '_',
        'b' => c == '0' || c == '1' || c == '_',
        _ => false,
    }
}

fn is_based_number(v: &[char], i: usize) -> (r: bool)
    requires
        i <= v@.len(),
    ensures
        r == based_number(v@, i as int),
{
    if v.len() - i < 3 || v[i] != '0' {
        return false;
    }
    let mut k: usize = i + 2;
    while k < v.len()
        invariant
            i + 2 <= k <= v@.len(),
            forall|j: int| i + 2 <= j < k ==> based_digit(v@[i + 1], #[trigger] v@[j]),
        decreases v@.len() - k,
    {
        if !is_based_digit(v[i + 1], v[k]) {
            return false;
        }
        k += 1;
    }
    true
}

fn is_number(v: &[char]) -> (r: bool)
    ensures
        r == number(v@),
{
    let n: usize = v.len();
    let i: usize = if n > 0 && (v[0] == '+' || v[0] == '-') {
        1
    } else {
        0
    };
    if i >= n {
        return false;
    }
    if is_digit(v[i]) {
        let j: usize = skip_digits(v, i);
        has_exponent_or_ends(v, j) || (j < n && v[j] == '.' && has_exponent_or_ends(
            v,
            skip_digits(v, j + 1),
        )) || is_in_sixties(v, j) || is_based_number(v, i)
    } else {
        v[i] == '.' && n - i > 1 && is_digit(v[i + 1]) && has_exponent_or_ends(
            v,
            skip_digits(v, i + 1),
        )
    }
}

fn has_two_digits(v: &[char], i: usize) -> (r: bool)
    requires
        i <= v@.len(),
    ensures
        r == two_digits(v@, i as int),
{
    v.len() - i >= 2 && is_digit(v[i]) && is_digit(v[i + 1])
}

fn skip_short(v: &[char], i: usize) -> (r: usize)
    requires
        i <= v@.len(),
    ensures
        i <= r <= v@.len(),
        r == short_end(v@, i as int),
{
    let n: usize = v.len();
    if has_two_digits(v, i) {
        i + 2
    } else if i < n && is_digit(v[i]) {
        i + 1
    } else {
        i
    }
}

fn skip_blanks(v: &[char], i: usize) -> (r: usize)
    requires
        i <= v@.len(),
    ensures
        i <= r <= v@.len(),
        r == blanks_end(v@, i as int),
{
    let mut k: usize = i;
    while k < v.len() && (v[k] == ' ' || v[k] == '\t')
        invariant
            i <= k <= v@.len(),
            blanks_end(v@, i as int) == blanks_end(v@, k as int),
        decreases v@.len() - k,
    {
        k += 1;
    }
    k
}

fn has_zone_or_ends(v: &[char], i: usize) -> (r: bool)
    requires
        i <= v@.len(),
    ensures
        r == zone_or_end(v@, i as int),
{
    let n: usize = v.len();
    if i == n {
        return true;
    }
    if v[i] == 'Z' {
        return i + 1 == n;
    }
    let h: usize = skip_short(v, i + 1);
    (v[i] == '+' || v[i] == '-') && h > i + 1 && (h == n || (v[h] == ':' && has_two_digits(v, h + 1)
        && n - h == 3))
}

fn is_time_at(v: &[char], i: usize) -> (r: bool)
    requires
        i <= v@.len(),
    ensures
        r == time_at(v@, i as int),
{
    let n: usize = v.len();
    let h: usize = skip_short(v, i);
    if h == i || n - h < 6 || v[h] != ':' || !has_two_digits(v, h + 1) || v[h + 3] != ':'
        || !has_two_digits(v, h + 4) {
        return false;
    }
    let end: usize = if n - h > 6 && v[h + 6] == '.' {
        skip_digits(v, h + 7)
    } else {
        h + 6
    };
    has_zone_or_ends(v, skip_blanks(v, end))
}

fn is_date(v: &[char]) -> (r: bool)
    ensures
        r == date(v@),
{
    let n: usize = v.len();
    if n < 6 || !has_two_digits(v, 0) || !has_two_digits(v, 2) || v[4] != '-' {
        return false;
    }
    let a: usize = skip_short(v, 5);
    if a == 5 || a == n || v[a] != '-' {
        return false;
    }
    let b: usize = skip_short(v, a + 1);
    if b == a + 1 {
        return false;
    }
    if b == n {
        return b == 10;
    }
    if v[b] == 'T' || v[b] == 't' {
        return is_time_at(v, b + 1);
    }
    let c: usize = skip_blanks(v, b);
    c > b && is_time_at(v, c)
}

/// Quotes a YAML scalar only when it needs it.
pub fn yaml_scalar(value: &str) -> (r: String)
    ensures
        r@ == scalar(value@),
{
    let v = chars_of(value);
    let n: usize = v.len();
    let quote = n == 0 || is_yaml_indicator(v[0]) || contains(value, ": ") || contains(value, ":\t")
        || contains(value, " #") || contains(value, "\t#") || v[n - 1] == ':' || !same_text(
        trim(value),
        value,
    ) || breaks_line(&v) || is_yaml_word(value) || is_number(&v) || is_date(&v);
    if !quote {
        return value.to_owned();
    }
    let mut out = String::new();
    out.push('\'');
    let mut i: usize = 0;
    while i < v.len()
        invariant
            i <= v@.len(),
            v@ == value@,
            out@ == seq!['\''] + doubled(value@.take(i as int)),
        decreases v@.len() - i,
    {
        assert(value@.take(i + 1).drop_last() == value@.take(i as int));
        if v[i] == '\'' {
            out.push('\'');
        }
        out.push(v[i]);
        i += 1;
    }
    assert(value@.take(i as int) == value@);
    out.push('\'');
    out
}

/// What a YAML reader takes from the inside of single quotes: each pair of
/// quotes is one.
pub open spec fn undoubled(v: Seq<char>) -> Seq<char>
    decreases v.len(),
{
    if v.len() == 0 {
        Seq::empty()
    } else if v.len() >= 2 && v.last() == '\'' && v[v.len() - 2] == '\'' {
        undoubled(v.take(v.len() - 2)).push('\'')
    } else {
        undoubled(v.drop_last()).push(v.last())
    }
}

/// Whether `c` may stand in a line of YAML.
pub open spec fn printable(c: char) -> bool {
    let u = c as u32;
    !line_break(c) && u != 0xfeff && (u == 0x09 || 0x20 <= u <= 0x7e || 0xa0 <= u <= 0xfffd || u
        >= 0x10000)
}

/// Whether every character of `s` may stand in a line of YAML.
pub open spec fn on_one_line(s: Seq<char>) -> bool {
    forall|i: int| 0 <= i < s.len() ==> printable(#[trigger] s[i])
}

/// The text that a YAML reader takes from a scalar that stands on one line behind a key
/// or a dash, plain or in single quotes; nothing where it takes no text from it.
pub open spec fn scalar_read(s: Seq<char>) -> Option<Seq<char>> {
    let inside = s.subrange(1, s.len() - 1);
    if !on_one_line(s) {
        None
    } else if s.len() >= 2 && s[0] == '\'' && s.last() == '\'' && doubled(undoubled(inside))
        == inside {
        Some(undoubled(inside))
    } else if needs_quoting(s) {
        None
    } else {
        Some(s)
    }
}

proof fn lemma_doubled(v: Seq<char>)
    ensures
        undoubled(doubled(v)) == v,
        on_one_line(v) ==> on_one_line(doubled(v)),
    decreases v.len(),
{
    if v.len() > 0 {
        let head = v.drop_last();
        let d = doubled(head);
        lemma_doubled(head);
        if on_one_line(v) {
            assert forall|i: int| 0 <= i < head.len() implies printable(#[trigger] head[i]) by {
                assert(head[i] == v[i]);
            }
            assert(printable(v[v.len() - 1]));
        }
        if v.last() == '\'' {
            let e = d.push('\'').push('\'');
            assert(e.take(e.len() - 2) == d);
        } else {
            assert(d.push(v.last()).drop_last() == d);
        }
        assert(v == head.push(v.last()));
    }
}

/// A scalar reads back as the text it was made of, whatever that looks like: no text
/// turns into a number, a date or nothing on the way. Left out are texts that a line of
/// YAML cannot hold: a reader folds line breaks, and refuses control characters.
pub proof fn law_scalar_reads_back(v: Seq<char>)
    requires
        on_one_line(v),
    ensures
        scalar_read(scalar(v)) == Some(v),
{
    if needs_quoting(v) {
        let s = scalar(v);
        lemma_doubled(v);
        let d = doubled(v);
        assert(s.subrange(1, s.len() - 1) == d);
        assert forall|i: int| 0 <= i < s.len() implies printable(#[trigger] s[i]) by {
            if 0 < i < s.len() - 1 {
                assert(s[i] == d[i - 1]);
            }
        }
    }
}

/// What stands between single quotes, read from the front: two quotes stand for one, and
/// one alone does not belong there.
pub open spec fn read_quoted(s: Seq<char>) -> Option<Seq<char>>
    decreases s.len(),
{
    if s.len() == 0 {
        Some(Seq::empty())
    } else if s[0] != '\'' {
        match read_quoted(s.skip(1)) {
            Some(rest) => Some(seq![s[0]] + rest),
            None => None,
        }
    } else if s.len() >= 2 && s[1] == '\'' {
        match read_quoted(s.skip(2)) {
            Some(rest) => Some(seq!['\''] + rest),
            None => None,
        }
    } else {
        None
    }
}

/// Whether the scalar is the text in single quotes.
pub open spec fn stands_quoted(scalar: Seq<char>, v: Seq<char>) -> bool {
    scalar.len() >= 2 && scalar[0] == '\'' && scalar.last() == '\'' && read_quoted(
        scalar.subrange(1, scalar.len() - 1),
    ) == Some(v)
}

proof fn lemma_read_more(s: Seq<char>, v: Seq<char>, c: char)
    requires
        read_quoted(s) == Some(v),
    ensures
        c != '\'' ==> read_quoted(s.push(c)) == Some(v.push(c)),
        read_quoted(s.push('\'').push('\'')) == Some(v.push('\'')),
    decreases s.len(),
{
    let t = s.push(c);
    let q = s.push('\'').push('\'');
    if s.len() == 0 {
        reveal_with_fuel(read_quoted, 3);
        assert(t.skip(1) == Seq::<char>::empty());
        assert(q.skip(2) == Seq::<char>::empty());
        assert(seq![c] + Seq::<char>::empty() == v.push(c));
        assert(seq!['\''] + Seq::<char>::empty() == v.push('\''));
    } else {
        let k: int = if s[0] != '\'' {
            1
        } else {
            2
        };
        let w = read_quoted(s.skip(k))->0;
        lemma_read_more(s.skip(k), w, c);
        assert(t.skip(k) == s.skip(k).push(c));
        assert(q.skip(k) == s.skip(k).push('\'').push('\''));
        assert(seq![s[0]] + w.push(c) == (seq![s[0]] + w).push(c));
        assert(seq![s[0]] + w.push('\'') == (seq![s[0]] + w).push('\''));
    }
}

proof fn lemma_doubled_is_read(v: Seq<char>)
    ensures
        read_quoted(doubled(v)) == Some(v),
    decreases v.len(),
{
    if v.len() > 0 {
        let h = v.drop_last();
        lemma_doubled_is_read(h);
        lemma_read_more(doubled(h), h, v.last());
        assert(h.push(v.last()) == v);
    }
}

/// A scalar is the text as it is, or the text in single quotes.
pub proof fn law_scalar_is_the_text(v: Seq<char>)
    ensures
        scalar(v) == v || stands_quoted(scalar(v), v),
        needs_quoting(v) <==> scalar(v) != v,
{
    lemma_doubled_is_read(v);
    let s = seq!['\''] + doubled(v) + seq!['\''];
    assert(s.subrange(1, s.len() - 1) == doubled(v));
    assert(s[0] == '\'' && s.last() == '\'');
    if needs_quoting(v) && s == v {
        lemma_doubled_is_longer(v);
    }
}

proof fn lemma_doubled_is_longer(v: Seq<char>)
    ensures
        doubled(v).len() >= v.len(),
    decreases v.len(),
{
    if v.len() > 0 {
        lemma_doubled_is_longer(v.drop_last());
    }
}

/// The words that a reader of YAML does not take for texts.
pub open spec fn words_of_yaml() -> Seq<Seq<char>> {
    seq![
        "~"@,
        "null"@,
        "Null"@,
        "NULL"@,
        "true"@,
        "True"@,
        "TRUE"@,
        "false"@,
        "False"@,
        "FALSE"@,
        "yes"@,
        "Yes"@,
        "YES"@,
        "no"@,
        "No"@,
        "NO"@,
        "on"@,
        "On"@,
        "ON"@,
        "off"@,
        "Off"@,
        "OFF"@,
        "y"@,
        "Y"@,
        "n"@,
        "N"@,
        ".inf"@,
        ".Inf"@,
        ".INF"@,
        "+.inf"@,
        "+.Inf"@,
        "+.INF"@,
        ".nan"@,
        ".NaN"@,
        ".NAN"@,
        "<<"@,
        "="@,
    ]
}

proof fn lemma_words_of_yaml(v: Seq<char>)
    ensures
        words_of_yaml().contains(v) == yaml_word(v),
{
    let ws = words_of_yaml();
    assert(ws[0] == "~"@);
    assert(ws[1] == "null"@);
    assert(ws[2] == "Null"@);
    assert(ws[3] == "NULL"@);
    assert(ws[4] == "true"@);
    assert(ws[5] == "True"@);
    assert(ws[6] == "TRUE"@);
    assert(ws[7] == "false"@);
    assert(ws[8] == "False"@);
    assert(ws[9] == "FALSE"@);
    assert(ws[10] == "yes"@);
    assert(ws[11] == "Yes"@);
    assert(ws[12] == "YES"@);
    assert(ws[13] == "no"@);
    assert(ws[14] == "No"@);
    assert(ws[15] == "NO"@);
    assert(ws[16] == "on"@);
    assert(ws[17] == "On"@);
    assert(ws[18] == "ON"@);
    assert(ws[19] == "off"@);
    assert(ws[20] == "Off"@);
    assert(ws[21] == "OFF"@);
    assert(ws[22] == "y"@);
    assert(ws[23] == "Y"@);
    assert(ws[24] == "n"@);
    assert(ws[25] == "N"@);
    assert(ws[26] == ".inf"@);
    assert(ws[27] == ".Inf"@);
    assert(ws[28] == ".INF"@);
    assert(ws[29] == "+.inf"@);
    assert(ws[30] == "+.Inf"@);
    assert(ws[31] == "+.INF"@);
    assert(ws[32] == ".nan"@);
    assert(ws[33] == ".NaN"@);
    assert(ws[34] == ".NAN"@);
    assert(ws[35] == "<<"@);
    assert(ws[36] == "="@);
}

/// Whether a reader stumbles over `v` where it stands as it is: it is empty, begins with a
/// character that means something to YAML, has white space at an end, goes over a line,
/// holds a colon before white space or the end or a number sign behind white space, or is
/// a word of YAML's own.
pub open spec fn stumbles(v: Seq<char>) -> bool {
    ||| v.len() == 0
    ||| "-?:&*!|>'\"%@`[{#,]}"@.contains(v[0])
    ||| white_space(v[0])
    ||| white_space(v.last())
    ||| exists|i: int|
        0 <= i < v.len() && (#[trigger] v[i] == '\n' || v[i] == '\r' || v[i] == '\u{85}' || v[i]
            == '\u{2028}' || v[i] == '\u{2029}')
    ||| exists|i: int|
        0 <= i < v.len() && #[trigger] v[i] == ':' && (i == v.len() - 1 || v[i + 1] == ' ' || v[i
            + 1] == '\t')
    ||| exists|i: int|
        0 < i < v.len() && #[trigger] v[i] == '#' && (v[i - 1] == ' ' || v[i - 1] == '\t')
    ||| words_of_yaml().contains(v)
}

proof fn lemma_pair_occurs(v: Seq<char>, a: char, b: char, p: Seq<char>)
    requires
        p == seq![a, b],
    ensures
        occurs_in(p, v) <==> exists|i: int| 0 <= i < v.len() - 1 && #[trigger] v[i] == a && v[i + 1]
            == b,
{
    if occurs_in(p, v) {
        let at = choose|at: int| #[trigger] found_at(v, p, at);
        assert(v.subrange(at, at + 2)[0] == v[at] && v.subrange(at, at + 2)[1] == v[at + 1]);
        assert(v[at] == a && v[at + 1] == b);
    }
    if exists|i: int| 0 <= i < v.len() - 1 && #[trigger] v[i] == a && v[i + 1] == b {
        let i = choose|i: int| 0 <= i < v.len() - 1 && #[trigger] v[i] == a && v[i + 1] == b;
        assert(v.subrange(i, i + 2) == p);
        assert(found_at(v, p, i));
    }
}

proof fn lemma_indicators(c: char)
    ensures
        "-?:&*!|>'\"%@`[{#,]}"@.contains(c) == yaml_indicator(c),
{
    reveal_strlit("-?:&*!|>'\"%@`[{#,]}");
    let s = "-?:&*!|>'\"%@`[{#,]}"@;
    assert(s.len() == 19);
    assert(s[0] == '-' && s[1] == '?' && s[2] == ':' && s[3] == '&' && s[4] == '*' && s[5] == '!');
    assert(s[6] == '|' && s[7] == '>' && s[8] == '\'' && s[9] == '"' && s[10] == '%' && s[11] == '@');
    assert(s[12] == '`' && s[13] == '[' && s[14] == '{' && s[15] == '#' && s[16] == ',');
    assert(s[17] == ']' && s[18] == '}');
}

proof fn lemma_white_ends(v: Seq<char>)
    requires
        v.len() > 0,
    ensures
        trim_spec(v) != v <==> white_space(v[0]) || white_space(v.last()),
{
    let (a, b) = law_trimming_takes_white_space(v);
    let t = trim_spec(v);
    if t == v {
        assert(t[0] == v[0]);
    } else {
        if a.len() > 0 {
            assert(v[0] == a[0]);
        } else {
            assert(b.len() > 0) by {
                assert(a + t + b == t + b);
                if b.len() == 0 {
                    assert(t + b == t);
                }
            }
            assert(v.last() == b[b.len() - 1]);
        }
    }
}

proof fn lemma_stumbling_needs_quotes(v: Seq<char>)
    ensures
        needs_quoting(v) == (stumbles(v) || number(v) || date(v)),
{
    reveal_strlit(": ");
    reveal_strlit(":\t");
    reveal_strlit(" #");
    reveal_strlit("\t#");
    if v.len() > 0 {
        assert(": "@ == seq![':', ' ']);
        assert(":\t"@ == seq![':', '\t']);
        assert(" #"@ == seq![' ', '#']);
        assert("\t#"@ == seq!['\t', '#']);
        lemma_pair_occurs(v, ':', ' ', ": "@);
        lemma_pair_occurs(v, ':', '\t', ":\t"@);
        lemma_pair_occurs(v, ' ', '#', " #"@);
        lemma_pair_occurs(v, '\t', '#', "\t#"@);
        lemma_indicators(v[0]);
        lemma_white_ends(v);
        lemma_words_of_yaml(v);
        let last = v.len() - 1;
        let colon = exists|i: int|
            0 <= i < v.len() && #[trigger] v[i] == ':' && (i == v.len() - 1 || v[i + 1] == ' '
                || v[i + 1] == '\t');
        let hash = exists|i: int|
            0 < i < v.len() && #[trigger] v[i] == '#' && (v[i - 1] == ' ' || v[i - 1] == '\t');
        if occurs_in(": "@, v) {
            let i = choose|i: int| 0 <= i < v.len() - 1 && #[trigger] v[i] == ':' && v[i + 1] == ' ';
            assert(v[i] == ':');
        }
        if occurs_in(":\t"@, v) {
            let i = choose|i: int| 0 <= i < v.len() - 1 && #[trigger] v[i] == ':' && v[i + 1] == '\t';
            assert(v[i] == ':');
        }
        if v.last() == ':' {
            assert(v[last] == ':');
        }
        if occurs_in(" #"@, v) {
            let i = choose|i: int| 0 <= i < v.len() - 1 && #[trigger] v[i] == ' ' && v[i + 1] == '#';
            assert(v[i + 1] == '#' && v[(i + 1) - 1] == ' ');
        }
        if occurs_in("\t#"@, v) {
            let i = choose|i: int| 0 <= i < v.len() - 1 && #[trigger] v[i] == '\t' && v[i + 1] == '#';
            assert(v[i + 1] == '#' && v[(i + 1) - 1] == '\t');
        }
        assert(colon <==> occurs_in(": "@, v) || occurs_in(":\t"@, v) || v.last() == ':');
        if hash {
            let i = choose|i: int|
                0 < i < v.len() && #[trigger] v[i] == '#' && (v[i - 1] == ' ' || v[i - 1] == '\t');
            assert(v[(i - 1) + 1] == '#');
            assert(v[i - 1] == ' ' || v[i - 1] == '\t');
        }
        assert(hash <==> occurs_in(" #"@, v) || occurs_in("\t#"@, v));
    }
}

/// Whatever a reader would stumble over is quoted.
pub proof fn law_stumbling_blocks_are_quoted(v: Seq<char>)
    requires
        stumbles(v),
    ensures
        stands_quoted(scalar(v), v),
{
    lemma_stumbling_needs_quotes(v);
    law_scalar_is_the_text(v);
    lemma_doubled_is_read(v);
    let s = scalar(v);
    assert(s.subrange(1, s.len() - 1) == doubled(v));
}

proof fn lemma_digits_run(v: Seq<char>, i: int, j: int)
    requires
        0 <= i <= j <= v.len(),
        forall|k: int| i <= k < j ==> '0' <= #[trigger] v[k] <= '9',
        j == v.len() || !('0' <= v[j] <= '9' || v[j] == '_'),
    ensures
        digits_end(v, i) == j,
    decreases j - i,
{
    if i < j {
        assert('0' <= v[i] <= '9');
        lemma_digits_run(v, i + 1, j);
    }
}

/// What looks like a number is quoted: digits, with a sign or without, with a fraction or
/// without, and hours or minutes with two digits behind a colon.
pub proof fn law_numbers_are_quoted(a: Seq<char>, b: Seq<char>)
    requires
        row_of_digits(a),
        row_of_digits(b),
    ensures
        stands_quoted(scalar(a), a),
        stands_quoted(scalar(seq!['+'] + a), seq!['+'] + a),
        stands_quoted(scalar(a + seq!['.'] + b), a + seq!['.'] + b),
        b.len() == 2 && b[0] <= '5' ==> stands_quoted(scalar(a + seq![':'] + b), a + seq![':'] + b),
        b.len() == 1 ==> stands_quoted(scalar(a + seq![':'] + b), a + seq![':'] + b),
{
    assert('0' <= a[0] <= '9');
    assert('0' <= b[0] <= '9');
    lemma_digits_run(a, 0, a.len() as int);
    lemma_number_is_quoted(a);
    let p = seq!['+'] + a;
    assert forall|k: int| 1 <= k < p.len() implies '0' <= #[trigger] p[k] <= '9' by {
        assert(p[k] == a[k - 1]);
    }
    lemma_digits_run(p, 1, p.len() as int);
    assert(p[1] == a[0]);
    lemma_number_is_quoted(p);
    let n = a.len() as int;
    let f = a + seq!['.'] + b;
    lemma_two_rows(a, b, '.');
    lemma_number_is_quoted(f);
    let c = a + seq![':'] + b;
    lemma_two_rows(a, b, ':');
    if b.len() == 2 && b[0] <= '5' || b.len() == 1 {
        assert(c[n] == ':' && c[n + 1] == b[0]);
        reveal_with_fuel(sixties_end, 2);
        if b.len() == 2 {
            assert('0' <= b[1] <= '9');
            assert(c[n + 2] == b[1]);
            assert(sixties_end(c, n) == c.len());
        } else {
            assert(sixties_end(c, n) == c.len());
        }
        assert(number(c));
        lemma_number_is_quoted(c);
    }
}

proof fn lemma_two_rows(a: Seq<char>, b: Seq<char>, mid: char)
    requires
        row_of_digits(a),
        row_of_digits(b),
        mid == '.' || mid == ':',
    ensures
        ({
            let v = a + seq![mid] + b;
            &&& digits_end(v, 0) == a.len()
            &&& digits_end(v, a.len() as int + 1) == v.len()
            &&& v[a.len() as int] == mid
            &&& '0' <= v[0] <= '9'
            &&& v[0] == a[0]
        }),
{
    let v = a + seq![mid] + b;
    let n = a.len() as int;
    assert('0' <= a[0] <= '9');
    assert forall|k: int| 0 <= k < n implies '0' <= #[trigger] v[k] <= '9' by {
        assert(v[k] == a[k]);
    }
    assert forall|k: int| n + 1 <= k < v.len() implies '0' <= #[trigger] v[k] <= '9' by {
        assert(v[k] == b[k - n - 1]);
    }
    lemma_digits_run(v, 0, n);
    lemma_digits_run(v, n + 1, v.len() as int);
}

proof fn lemma_number_is_quoted(v: Seq<char>)
    requires
        number(v) || date(v),
    ensures
        stands_quoted(scalar(v), v),
{
    lemma_stumbling_needs_quotes(v);
    lemma_doubled_is_read(v);
    let s = scalar(v);
    assert(s.subrange(1, s.len() - 1) == doubled(v));
}

/// What looks like a date is quoted.
pub proof fn law_dates_are_quoted(v: Seq<char>)
    requires
        v.len() == 10,
        v[4] == '-',
        v[7] == '-',
        forall|k: int| 0 <= k < 10 && k != 4 && k != 7 ==> '0' <= #[trigger] v[k] <= '9',
    ensures
        stands_quoted(scalar(v), v),
{
    assert('0' <= v[0] <= '9' && '0' <= v[1] <= '9' && '0' <= v[2] <= '9' && '0' <= v[3] <= '9');
    assert('0' <= v[5] <= '9' && '0' <= v[6] <= '9' && '0' <= v[8] <= '9' && '0' <= v[9] <= '9');
    assert(date(v));
    lemma_number_is_quoted(v);
}

/// The common case stays readable: a text that begins with a letter, and over which no
/// reader stumbles, stands as it is, however long it is.
pub proof fn law_common_texts_stand_as_they_are(v: Seq<char>)
    requires
        !stumbles(v),
        'a' <= v[0] <= 'z' || 'A' <= v[0] <= 'Z' || v[0] as int > 0x7f,
    ensures
        scalar(v) == v,
{
    lemma_stumbling_needs_quotes(v);
    assert(!digit(v[0]));
    assert(v[0] != '+' && v[0] != '-' && v[0] != '.');
    assert(!number(v));
    assert(!date(v));
}

/// The other ways of writing a number are quoted too: to another base, with an exponent,
/// with nothing before the point or behind it, with an underscore among the digits.
pub proof fn law_other_numbers_are_quoted(a: Seq<char>, b: Seq<char>, h: Seq<char>)
    requires
        row_of_digits(a),
        row_of_digits(b),
        h.len() > 0,
    ensures
        (forall|k: int|
            0 <= k < h.len() ==> ('0' <= #[trigger] h[k] <= '9' || 'a' <= h[k] <= 'f' || 'A' <= h[k]
                <= 'F')) ==> stands_quoted(scalar(seq!['0', 'x'] + h), seq!['0', 'x'] + h),
        (forall|k: int| 0 <= k < h.len() ==> '0' <= #[trigger] h[k] <= '7') ==> stands_quoted(
            scalar(seq!['0', 'o'] + h),
            seq!['0', 'o'] + h,
        ),
        (forall|k: int| 0 <= k < h.len() ==> '0' <= #[trigger] h[k] <= '1') ==> stands_quoted(
            scalar(seq!['0', 'b'] + h),
            seq!['0', 'b'] + h,
        ),
        stands_quoted(scalar(seq!['.'] + b), seq!['.'] + b),
        stands_quoted(scalar(a + seq!['.']), a + seq!['.']),
        stands_quoted(scalar(a + seq!['_'] + b), a + seq!['_'] + b),
        stands_quoted(scalar(a + seq!['e'] + b), a + seq!['e'] + b),
        stands_quoted(scalar(a + seq!['E', '+'] + b), a + seq!['E', '+'] + b),
        stands_quoted(scalar(a + seq!['e', '-'] + b), a + seq!['e', '-'] + b),
{
    assert('0' <= a[0] <= '9');
    assert('0' <= b[0] <= '9');
    let n = a.len() as int;
    let x = seq!['0', 'x'] + h;
    let o = seq!['0', 'o'] + h;
    let t = seq!['0', 'b'] + h;
    if forall|k: int|
        0 <= k < h.len() ==> ('0' <= #[trigger] h[k] <= '9' || 'a' <= h[k] <= 'f' || 'A' <= h[k]
            <= 'F') {
        assert forall|k: int| 2 <= k < x.len() implies based_digit('x', #[trigger] x[k]) by {
            assert(x[k] == h[k - 2]);
        }
        assert(based_number(x, 0));
        lemma_number_is_quoted(x);
    }
    if forall|k: int| 0 <= k < h.len() ==> '0' <= #[trigger] h[k] <= '7' {
        assert forall|k: int| 2 <= k < o.len() implies based_digit('o', #[trigger] o[k]) by {
            assert(o[k] == h[k - 2]);
        }
        assert(based_number(o, 0));
        lemma_number_is_quoted(o);
    }
    if forall|k: int| 0 <= k < h.len() ==> '0' <= #[trigger] h[k] <= '1' {
        assert forall|k: int| 2 <= k < t.len() implies based_digit('b', #[trigger] t[k]) by {
            assert(t[k] == h[k - 2]);
        }
        assert(based_number(t, 0));
        lemma_number_is_quoted(t);
    }
    let p = seq!['.'] + b;
    lemma_row_at(p, 1, b);
    assert(p[1] == b[0]);
    lemma_number_is_quoted(p);
    let q = a + seq!['.'];
    lemma_row_before(q, a);
    assert(digits_end(q, n + 1) == q.len());
    assert(q[0] == a[0]);
    lemma_number_is_quoted(q);
    let u = a + seq!['_'] + b;
    lemma_row_at(u, n + 1, b);
    lemma_row_up_to_underscore(u, 0, n);
    assert(u[0] == a[0]);
    lemma_number_is_quoted(u);
    let e = a + seq!['e'] + b;
    lemma_row_before(e, a);
    lemma_row_at(e, n + 1, b);
    assert(e[0] == a[0] && e[n + 1] == b[0]);
    assert(exponent_or_end(e, n));
    lemma_number_is_quoted(e);
    let f = a + seq!['E', '+'] + b;
    lemma_row_before(f, a);
    lemma_row_at(f, n + 2, b);
    assert(f[0] == a[0] && f[n + 2] == b[0]);
    assert(exponent_or_end(f, n));
    lemma_number_is_quoted(f);
    let g = a + seq!['e', '-'] + b;
    lemma_row_before(g, a);
    lemma_row_at(g, n + 2, b);
    assert(g[0] == a[0] && g[n + 2] == b[0]);
    assert(exponent_or_end(g, n));
    lemma_number_is_quoted(g);
}

proof fn lemma_row_before(v: Seq<char>, a: Seq<char>)
    requires
        row_of_digits(a),
        a.len() < v.len(),
        v.take(a.len() as int) =~= a,
        !('0' <= v[a.len() as int] <= '9') && v[a.len() as int] != '_',
    ensures
        digits_end(v, 0) == a.len(),
{
    assert forall|k: int| 0 <= k < a.len() implies '0' <= #[trigger] v[k] <= '9' by {
        assert(v.take(a.len() as int)[k] == v[k]);
        assert('0' <= a[k] <= '9');
    }
    lemma_digits_run(v, 0, a.len() as int);
}

proof fn lemma_row_at(v: Seq<char>, i: int, b: Seq<char>)
    requires
        row_of_digits(b),
        0 <= i <= v.len(),
        v.skip(i) =~= b,
    ensures
        digits_end(v, i) == v.len(),
{
    assert forall|k: int| i <= k < v.len() implies '0' <= #[trigger] v[k] <= '9' by {
        assert(v.skip(i)[k - i] == v[k]);
        assert('0' <= b[k - i] <= '9');
    }
    lemma_digits_run(v, i, v.len() as int);
}

proof fn lemma_row_up_to_underscore(v: Seq<char>, i: int, n: int)
    requires
        0 <= i <= n < v.len(),
        v[n] == '_',
        digits_end(v, n + 1) == v.len(),
        forall|k: int| i <= k < n ==> '0' <= #[trigger] v[k] <= '9',
    ensures
        digits_end(v, i) == v.len(),
    decreases n - i,
{
    if i < n {
        assert('0' <= v[i] <= '9');
        lemma_row_up_to_underscore(v, i + 1, n);
    } else {
        assert(digits_end(v, n) == digits_end(v, n + 1));
    }
}

/// A date with a time of day behind it is quoted, with a space or a letter between, and
/// with the zone or without.
pub proof fn law_dates_with_times_are_quoted(d: Seq<char>, t: Seq<char>)
    requires
        d.len() == 10,
        d[4] == '-',
        d[7] == '-',
        forall|k: int| 0 <= k < 10 && k != 4 && k != 7 ==> '0' <= #[trigger] d[k] <= '9',
        t.len() == 8,
        t[2] == ':',
        t[5] == ':',
        forall|k: int| 0 <= k < 8 && k != 2 && k != 5 ==> '0' <= #[trigger] t[k] <= '9',
    ensures
        stands_quoted(scalar(d + seq![' '] + t), d + seq![' '] + t),
        stands_quoted(scalar(d + seq!['T'] + t), d + seq!['T'] + t),
        stands_quoted(scalar(d + seq!['T'] + t + seq!['Z']), d + seq!['T'] + t + seq!['Z']),
{
    lemma_date_with_time(d + seq![' '] + t, d, t);
    lemma_date_with_time(d + seq!['T'] + t, d, t);
    lemma_date_with_time(d + seq!['T'] + t + seq!['Z'], d, t);
}

proof fn lemma_date_with_time(v: Seq<char>, d: Seq<char>, t: Seq<char>)
    requires
        d.len() == 10,
        d[4] == '-',
        d[7] == '-',
        forall|k: int| 0 <= k < 10 && k != 4 && k != 7 ==> '0' <= #[trigger] d[k] <= '9',
        t.len() == 8,
        t[2] == ':',
        t[5] == ':',
        forall|k: int| 0 <= k < 8 && k != 2 && k != 5 ==> '0' <= #[trigger] t[k] <= '9',
        v.len() == 19 || v.len() == 20 && v[19] == 'Z',
        v[10] == ' ' || v[10] == 'T',
        v.take(10) =~= d,
        v.subrange(11, 19) =~= t,
    ensures
        stands_quoted(scalar(v), v),
{
    assert forall|k: int| 0 <= k < 10 implies #[trigger] v[k] == d[k] by {
        assert(v.take(10)[k] == v[k]);
    }
    assert forall|k: int| 11 <= k < 19 implies #[trigger] v[k] == t[k - 11] by {
        assert(v.subrange(11, 19)[k - 11] == v[k]);
    }
    assert('0' <= d[0] <= '9' && '0' <= d[1] <= '9' && '0' <= d[2] <= '9' && '0' <= d[3] <= '9');
    assert('0' <= d[5] <= '9' && '0' <= d[6] <= '9' && '0' <= d[8] <= '9' && '0' <= d[9] <= '9');
    assert('0' <= t[0] <= '9' && '0' <= t[1] <= '9' && '0' <= t[3] <= '9' && '0' <= t[4] <= '9');
    assert('0' <= t[6] <= '9' && '0' <= t[7] <= '9');
    assert(two_digits(v, 0) && two_digits(v, 2) && two_digits(v, 5) && two_digits(v, 8));
    assert(two_digits(v, 11) && two_digits(v, 14) && two_digits(v, 17));
    assert(v[13] == ':' && v[16] == ':');
    assert(blanks_end(v, 19) == 19);
    assert(zone_or_end(v, 19));
    assert(time_at(v, 11));
    assert(v[11] != ' ' && v[11] != '\t');
    reveal_with_fuel(blanks_end, 2);
    assert(date(v));
    lemma_number_is_quoted(v);
}

/// Whether `c` can stand in a number or a date.
pub open spec fn of_numbers(c: char) -> bool {
    ||| '0' <= c <= '9'
    ||| 'a' <= c <= 'f'
    ||| 'A' <= c <= 'F'
    ||| "_+-.:xoTtZ \t"@.contains(c)
}

proof fn lemma_of_numbers(c: char)
    ensures
        of_numbers(c) <==> {
            ||| '0' <= c <= '9' || 'a' <= c <= 'f' || 'A' <= c <= 'F'
            ||| c == '_' || c == '+' || c == '-' || c == '.' || c == ':' || c == 'x' || c == 'o'
            ||| c == 'T' || c == 't' || c == 'Z' || c == ' ' || c == '\t'
        },
{
    reveal_strlit("_+-.:xoTtZ \t");
    let s = "_+-.:xoTtZ \t"@;
    assert(s.len() == 12);
    assert(s[0] == '_' && s[1] == '+' && s[2] == '-' && s[3] == '.' && s[4] == ':' && s[5] == 'x');
    assert(s[6] == 'o' && s[7] == 'T' && s[8] == 't' && s[9] == 'Z' && s[10] == ' ');
    assert(s[11] == '\t');
}

/// Whether all from `i` up to `j` can stand in a number or a date.
spec fn numeric(v: Seq<char>, i: int, j: int) -> bool {
    forall|k: int| i <= k < j ==> of_numbers(#[trigger] v[k])
}

proof fn lemma_digits_end_numeric(v: Seq<char>, i: int)
    requires
        0 <= i <= v.len(),
    ensures
        i <= digits_end(v, i) <= v.len(),
        numeric(v, i, digits_end(v, i)),
    decreases v.len() - i,
{
    if i < v.len() && (digit(v[i]) || v[i] == '_') {
        lemma_of_numbers(v[i]);
        lemma_digits_end_numeric(v, i + 1);
    }
}

proof fn lemma_sixties_end_numeric(v: Seq<char>, i: int)
    requires
        0 <= i <= v.len(),
    ensures
        i <= sixties_end(v, i) <= v.len(),
        numeric(v, i, sixties_end(v, i)),
    decreases v.len() - i,
{
    if i + 1 < v.len() && v[i] == ':' && digit(v[i + 1]) {
        lemma_of_numbers(v[i]);
        lemma_of_numbers(v[i + 1]);
        if i + 2 < v.len() && digit(v[i + 2]) {
            lemma_of_numbers(v[i + 2]);
            if v[i + 1] <= '5' {
                lemma_sixties_end_numeric(v, i + 3);
            }
        } else {
            lemma_sixties_end_numeric(v, i + 2);
        }
    }
}

proof fn lemma_blanks_end_numeric(v: Seq<char>, i: int)
    requires
        0 <= i <= v.len(),
    ensures
        i <= blanks_end(v, i) <= v.len(),
        numeric(v, i, blanks_end(v, i)),
    decreases v.len() - i,
{
    if i < v.len() && (v[i] == ' ' || v[i] == '\t') {
        lemma_of_numbers(v[i]);
        lemma_blanks_end_numeric(v, i + 1);
    }
}

proof fn lemma_exponent_numeric(v: Seq<char>, i: int)
    requires
        0 <= i <= v.len(),
        exponent_or_end(v, i),
    ensures
        numeric(v, i, v.len() as int),
{
    if i < v.len() {
        lemma_of_numbers(v[i]);
        lemma_of_numbers(v[i + 1]);
        let k = if v[i + 1] == '+' || v[i + 1] == '-' {
            i + 2
        } else {
            i + 1
        };
        lemma_digits_end_numeric(v, k);
    }
}

proof fn lemma_number_numeric(v: Seq<char>, i: int)
    requires
        0 <= i <= v.len(),
        number_at(v, i),
    ensures
        numeric(v, i, v.len() as int),
{
    lemma_of_numbers(v[i]);
    if digit(v[i]) {
        let j = digits_end(v, i);
        lemma_digits_end_numeric(v, i);
        if exponent_or_end(v, j) {
            lemma_exponent_numeric(v, j);
        } else if j < v.len() && v[j] == '.' && exponent_or_end(v, digits_end(v, j + 1)) {
            lemma_of_numbers(v[j]);
            lemma_digits_end_numeric(v, j + 1);
            lemma_exponent_numeric(v, digits_end(v, j + 1));
        } else if goes_on_in_sixties(v, j) {
            lemma_sixties_end_numeric(v, j);
            let k = sixties_end(v, j);
            if k < v.len() {
                lemma_of_numbers(v[k]);
                lemma_digits_end_numeric(v, k + 1);
            }
        } else {
            assert(based_digit(v[i + 1], v[i + 2]));
            lemma_of_numbers(v[i + 1]);
            assert forall|k: int| i <= k < v.len() implies of_numbers(#[trigger] v[k]) by {
                if k >= i + 2 {
                    assert(based_digit(v[i + 1], v[k]));
                    lemma_of_numbers(v[k]);
                }
            }
        }
    } else {
        lemma_digits_end_numeric(v, i + 1);
        lemma_exponent_numeric(v, digits_end(v, i + 1));
    }
}

proof fn lemma_short_numeric(v: Seq<char>, i: int)
    requires
        0 <= i <= v.len(),
    ensures
        i <= short_end(v, i) <= v.len(),
        numeric(v, i, short_end(v, i)),
{
    if i < v.len() {
        lemma_of_numbers(v[i]);
    }
    if i + 1 < v.len() {
        lemma_of_numbers(v[i + 1]);
    }
}

proof fn lemma_zone_numeric(v: Seq<char>, i: int)
    requires
        0 <= i <= v.len(),
        zone_or_end(v, i),
    ensures
        numeric(v, i, v.len() as int),
{
    if i < v.len() {
        lemma_of_numbers(v[i]);
        if v[i] != 'Z' {
            lemma_short_numeric(v, i + 1);
            let h = short_end(v, i + 1);
            if h < v.len() {
                lemma_of_numbers(v[h]);
                lemma_of_numbers(v[h + 1]);
                lemma_of_numbers(v[h + 2]);
            }
        }
    }
}

proof fn lemma_time_numeric(v: Seq<char>, i: int)
    requires
        0 <= i <= v.len(),
        time_at(v, i),
    ensures
        numeric(v, i, v.len() as int),
{
    let h = short_end(v, i);
    lemma_short_numeric(v, i);
    lemma_of_numbers(v[h]);
    lemma_of_numbers(v[h + 1]);
    lemma_of_numbers(v[h + 2]);
    lemma_of_numbers(v[h + 3]);
    lemma_of_numbers(v[h + 4]);
    lemma_of_numbers(v[h + 5]);
    let e = if h + 6 < v.len() && v[h + 6] == '.' {
        lemma_of_numbers(v[h + 6]);
        lemma_digits_end_numeric(v, h + 7);
        digits_end(v, h + 7)
    } else {
        h + 6
    };
    lemma_blanks_end_numeric(v, e);
    lemma_zone_numeric(v, blanks_end(v, e));
}

proof fn lemma_date_numeric(v: Seq<char>)
    requires
        date(v),
    ensures
        numeric(v, 0, v.len() as int),
{
    let a = short_end(v, 5);
    let b = short_end(v, a + 1);
    lemma_of_numbers(v[0]);
    lemma_of_numbers(v[1]);
    lemma_of_numbers(v[2]);
    lemma_of_numbers(v[3]);
    lemma_of_numbers(v[4]);
    lemma_short_numeric(v, 5);
    lemma_of_numbers(v[a]);
    lemma_short_numeric(v, a + 1);
    if b < v.len() {
        if v[b] == 'T' || v[b] == 't' {
            lemma_of_numbers(v[b]);
            lemma_time_numeric(v, b + 1);
        } else {
            lemma_blanks_end_numeric(v, b);
            lemma_time_numeric(v, blanks_end(v, b));
        }
    }
}

/// A text over which no reader stumbles stands as it is wherever it holds a character that
/// neither a number nor a date has, digits in front or not.
pub proof fn law_texts_with_digits_stand_as_they_are(v: Seq<char>, k: int)
    requires
        !stumbles(v),
        0 <= k < v.len(),
        !of_numbers(v[k]),
    ensures
        scalar(v) == v,
{
    lemma_stumbling_needs_quotes(v);
    if number(v) {
        lemma_of_numbers(v[0]);
        if v[0] == '+' || v[0] == '-' {
            lemma_number_numeric(v, 1);
        } else {
            lemma_number_numeric(v, 0);
        }
        assert(of_numbers(v[k]));
    }
    if date(v) {
        lemma_date_numeric(v);
        assert(of_numbers(v[k]));
    }
}

/// A row of numbers with points between, such as a version, is no number and stands as it
/// is.
pub proof fn law_versions_stand_as_they_are(a: Seq<char>, b: Seq<char>, c: Seq<char>)
    requires
        row_of_digits(a),
        row_of_digits(b),
        row_of_digits(c),
        !stumbles(a + seq!['.'] + b + seq!['.'] + c),
    ensures
        scalar(a + seq!['.'] + b + seq!['.'] + c) == a + seq!['.'] + b + seq!['.'] + c,
{
    let v = a + seq!['.'] + b + seq!['.'] + c;
    let (n, m) = (a.len() as int, (a.len() + 1 + b.len()) as int);
    lemma_stumbling_needs_quotes(v);
    assert('0' <= a[0] <= '9' && '0' <= b[0] <= '9' && '0' <= c[0] <= '9');
    assert forall|k: int| 0 <= k < n implies '0' <= #[trigger] v[k] <= '9' by {
        assert(v[k] == a[k]);
    }
    assert forall|k: int| n + 1 <= k < m implies '0' <= #[trigger] v[k] <= '9' by {
        assert(v[k] == b[k - n - 1]);
    }
    assert forall|k: int| m < k < v.len() implies '0' <= #[trigger] v[k] <= '9' by {
        assert(v[k] == c[k - m - 1]);
    }
    assert(v[n] == '.' && v[m] == '.');
    lemma_digits_run(v, 0, n);
    lemma_digits_run(v, n + 1, m);
    assert(sixties_end(v, n) == n);
    assert(!based_number(v, 0)) by {
        assert(v.len() >= 5);
        assert(v[1] == '.' || '0' <= v[1] <= '9');
        assert(!based_digit(v[1], v[2]));
    }
    assert('0' <= v[0] <= '9');
    assert(!number(v));
    if date(v) {
        assert(v[4] == '-');
    }
}

/// What only resembles a number or a date stands as it is: a second part behind a colon that
/// no minute has, and a date that does not have all its digits.
pub proof fn law_near_numbers_stand_as_they_are(a: Seq<char>, b: Seq<char>, d: Seq<char>)
    requires
        row_of_digits(a),
        row_of_digits(b),
        b.len() == 2 && b[0] > '5' || b.len() > 2,
        row_of_digits(d.subrange(0, 4)) && row_of_digits(d.subrange(5, 6)),
        d.len() == 8 || d.len() == 9,
        d[4] == '-' && d[6] == '-',
        row_of_digits(d.skip(7)),
        !stumbles(a + seq![':'] + b),
        !stumbles(d),
    ensures
        scalar(a + seq![':'] + b) == a + seq![':'] + b,
        scalar(d) == d,
{
    let c = a + seq![':'] + b;
    let n = a.len() as int;
    lemma_stumbling_needs_quotes(c);
    lemma_two_rows(a, b, ':');
    assert('0' <= b[0] <= '9' && '0' <= b[1] <= '9');
    assert(c[n + 1] == b[0] && c[n + 2] == b[1]);
    assert(!goes_on_in_sixties(c, n)) by {
        reveal_with_fuel(sixties_end, 2);
        if b[0] <= '5' {
            assert(c[n + 3] == b[2]);
            assert('0' <= b[2] <= '9');
            assert(sixties_end(c, n) == n + 3);
        } else {
            assert(sixties_end(c, n) == n);
        }
    }
    assert(!based_number(c, 0)) by {
        assert(c[1] == ':' || '0' <= c[1] <= '9') by {
            if n > 1 {
                assert('0' <= a[1] <= '9');
                assert(c[1] == a[1]);
            }
        }
        assert(!based_digit(c[1], c[2]));
    }
    assert(!number(c));
    if date(c) {
        assert(c[4] == '-');
        if 4 < n {
            assert('0' <= a[4] <= '9');
            assert(c[4] == a[4]);
        } else if 4 > n {
            assert('0' <= b[4 - n - 1] <= '9');
            assert(c[4] == b[4 - n - 1]);
        }
    }
    lemma_stumbling_needs_quotes(d);
    let y = d.subrange(0, 4);
    assert('0' <= y[0] <= '9' && '0' <= y[1] <= '9' && '0' <= y[2] <= '9' && '0' <= y[3] <= '9');
    assert(y[0] == d[0] && y[1] == d[1] && y[2] == d[2] && y[3] == d[3]);
    assert('0' <= d.subrange(5, 6)[0] <= '9');
    assert(d.subrange(5, 6)[0] == d[5]);
    assert('0' <= d.skip(7)[0] <= '9');
    assert(d.skip(7)[0] == d[7]);
    if d.len() == 9 {
        assert('0' <= d.skip(7)[1] <= '9');
        assert(d.skip(7)[1] == d[8]);
    }
    lemma_digits_run(d, 0, 4);
    assert(sixties_end(d, 4) == 4);
    assert(!exponent_or_end(d, 4));
    assert(!based_number(d, 0)) by {
        assert(!based_digit(d[1], d[2]));
    }
    assert(!number(d));
    assert(short_end(d, 5) == 6);
    assert(short_end(d, 7) == d.len());
    assert(!date(d));
}

} // verus!
