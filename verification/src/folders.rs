//! Where meetings are kept, and which files there are what.

use vstd::prelude::*;
use vstd::string::*;

use crate::text::{
    ascii_lower, ascii_lower_char, ascii_lower_spec, chars_of, same_text, starts_with, trim,
    trim_spec,
};

verus! {

/// Raw audio is kept for this long, in nanoseconds: 24 hours.
pub const AUDIO_KEPT_NS: i128 = 24 * 3600 * 1_000_000_000;

/// What is said where the home directory is not known.
pub const NO_HOME: &'static str = "HOME not set";

/// `base` with `rest` behind it: an absolute `rest` stands alone, and a separator
/// comes between where `base` has none at its end.
pub open spec fn joined(base: Seq<char>, rest: Seq<char>) -> Seq<char> {
    if rest.len() > 0 && rest[0] == '/' {
        rest
    } else if base.len() > 0 && base.last() != '/' {
        base.push('/') + rest
    } else {
        base + rest
    }
}

/// `base` with `rest` behind it, as `Path::join` does it.
pub fn join_path(base: &str, rest: &str) -> (r: String)
    ensures
        r@ == joined(base@, rest@),
{
    let b = chars_of(base);
    let c = chars_of(rest);
    if c.len() > 0 && c[0] == '/' {
        return rest.to_owned();
    }
    let mut out = base.to_owned();
    if b.len() > 0 && b[b.len() - 1] != '/' {
        out.push('/');
    }
    out.append(rest);
    out
}

/// Where meetings are kept, where the settings name no place.
pub open spec fn legacy_dir(home: Seq<char>) -> Seq<char> {
    joined(joined(home, "Documents"@), "Lark Meetings"@)
}

/// Where meetings are kept: as the settings say, with a leading `~/` expanded, or
/// the historical place. `None` where that needs a home directory that is not
/// known.
pub open spec fn meetings_dir(configured: Seq<char>, home: Option<Seq<char>>) -> Option<Seq<char>> {
    let t = trim_spec(configured);
    if t.len() == 0 {
        match home {
            Some(h) => Some(legacy_dir(h)),
            None => None,
        }
    } else if "~/"@.is_prefix_of(t) {
        match home {
            Some(h) => Some(joined(h, t.skip(2))),
            None => None,
        }
    } else {
        Some(t)
    }
}

fn legacy_meetings_dir(home: Option<&str>) -> (r: Result<String, String>)
    ensures
        match home {
            Some(h) => r matches Ok(d) && d@ == legacy_dir(h@),
            None => r matches Err(e) && e@ == NO_HOME@,
        },
{
    match home {
        Some(h) => {
            let documents = join_path(h, "Documents");
            Ok(join_path(documents.as_str(), "Lark Meetings"))
        },
        None => Err(NO_HOME.to_owned()),
    }
}

/// Where meetings are kept.
pub fn meetings_dir_for(configured: &str, home: Option<&str>) -> (r: Result<String, String>)
    ensures
        match meetings_dir(configured@, crate::text::str_view(home)) {
            Some(d) => r matches Ok(s) && s@ == d,
            None => r matches Err(e) && e@ == NO_HOME@,
        },
{
    let t = trim(configured);
    if t.unicode_len() == 0 {
        return legacy_meetings_dir(home);
    }
    if starts_with(t, "~/") {
        proof {
            reveal_strlit("~/");
        }
        let n: usize = t.unicode_len();
        let rest = t.substring_char(2, n);
        assert(rest@ == t@.skip(2));
        return match home {
            Some(h) => Ok(join_path(h, rest)),
            None => Err(NO_HOME.to_owned()),
        };
    }
    Ok(t.to_owned())
}

/// Where the last dot stands in `s`.
pub open spec fn last_dot(s: Seq<char>) -> Option<int>
    decreases s.len(),
{
    if s.len() == 0 {
        None
    } else if s.last() == '.' {
        Some(s.len() - 1)
    } else {
        last_dot(s.drop_last())
    }
}

/// Where the extension of a file name begins: at its last dot, but not where the
/// name begins.
pub open spec fn extension_dot(name: Seq<char>) -> Option<int> {
    match last_dot(name) {
        Some(at) => if at > 0 {
            Some(at)
        } else {
            None
        },
        None => None,
    }
}

/// The extension of a file name.
pub open spec fn extension(name: Seq<char>) -> Option<Seq<char>> {
    match extension_dot(name) {
        Some(at) => Some(name.skip(at + 1)),
        None => None,
    }
}

/// A file name without its extension.
pub open spec fn file_stem(name: Seq<char>) -> Seq<char> {
    match extension_dot(name) {
        Some(at) => name.take(at),
        None => name,
    }
}

fn find_extension(name: &str) -> (r: Option<usize>)
    ensures
        match r {
            Some(at) => extension_dot(name@) == Some(at as int) && at < name@.len(),
            None => extension_dot(name@) is None,
        },
{
    let v = chars_of(name);
    let mut i: usize = v.len();
    assert(v@.take(i as int) == v@);
    while i > 0
        invariant
            i <= v@.len(),
            v@ == name@,
            last_dot(v@.take(i as int)) == last_dot(name@),
        decreases i,
    {
        assert(v@.take(i as int).drop_last() == v@.take(i - 1));
        i -= 1;
        if v[i] == '.' {
            return if i > 0 {
                Some(i)
            } else {
                None
            };
        }
    }
    None
}

proof fn lemma_last_dot(s: Seq<char>, i: int)
    requires
        0 <= i < s.len(),
        s[i] == '.',
        forall|k: int| i < k < s.len() ==> s[k] != '.',
    ensures
        last_dot(s) == Some(i),
    decreases s.len(),
{
    if i < s.len() - 1 {
        lemma_last_dot(s.drop_last(), i);
    }
}

/// The extension of a file name, as `Path::extension` finds it.
pub fn extension_of(name: &str) -> (r: Option<&str>)
    ensures
        match r {
            Some(e) => extension(name@) == Some(e@),
            None => extension(name@) is None,
        },
{
    match find_extension(name) {
        Some(at) => {
            let n: usize = name.unicode_len();
            let e = name.substring_char(at + 1, n);
            assert(e@ == name@.skip(at + 1));
            Some(e)
        },
        None => None,
    }
}

/// A file name without its extension, as `Path::file_stem` finds it.
pub fn stem_of(name: &str) -> (r: &str)
    ensures
        r@ == file_stem(name@),
{
    match find_extension(name) {
        Some(at) => {
            let s = name.substring_char(0, at);
            assert(s@ == name@.take(at as int));
            s
        },
        None => name,
    }
}

/// Whether a file is raw audio that has been kept long enough: it was last
/// written more than 24 hours before `now`.
pub open spec fn expired(name: Seq<char>, modified_ns: Option<i128>, now_ns: i128) -> bool {
    &&& extension(name) matches Some(e) && ascii_lower_spec(e) == "wav"@
    &&& modified_ns matches Some(t) && t < now_ns - AUDIO_KEPT_NS
}

/// Whether a file is raw audio that has been kept long enough.
pub fn is_expired_wav(name: &str, modified_ns: Option<i128>, now_ns: i128) -> (r: bool)
    requires
        now_ns - AUDIO_KEPT_NS >= i128::MIN,
    ensures
        r == expired(name@, modified_ns, now_ns),
{
    let is_wav = match extension_of(name) {
        Some(e) => {
            let low = ascii_lower(e);
            same_text(low.as_str(), "wav")
        },
        None => false,
    };
    let old = match modified_ns {
        Some(t) => t < now_ns - AUDIO_KEPT_NS,
        None => false,
    };
    is_wav && old
}

/// Transcripts are kept for ever: no clean-up takes a Markdown file, nor the
/// sidecar of a run.
pub proof fn law_transcripts_are_kept(stem: Seq<char>, modified_ns: Option<i128>, now_ns: i128)
    ensures
        !expired(stem + ".md"@, modified_ns, now_ns),
        !expired(stem + ".partial.jsonl"@, modified_ns, now_ns),
{
    reveal_strlit(".md");
    reveal_strlit(".partial.jsonl");
    reveal_strlit("wav");
    assert("wav"@.len() == 3);
    let a = stem + ".md"@;
    lemma_last_dot(a, stem.len() as int);
    assert(extension(a) matches Some(e) ==> ascii_lower_spec(e).len() == 2);
    let b = stem + ".partial.jsonl"@;
    lemma_last_dot(b, (stem.len() + 8) as int);
    assert(extension(b) matches Some(e) ==> ascii_lower_spec(e).len() == 5);
}

/// A path goes on behind its directory, with one separator between; an absolute one stands
/// alone.
pub proof fn law_paths_go_on_behind_the_directory(dir: Seq<char>, rest: Seq<char>)
    requires
        dir.len() > 0 && dir.last() != '/',
    ensures
        rest.len() == 0 || rest[0] != '/' ==> joined(dir, rest) == dir + seq!['/'] + rest && joined(
            dir + seq!['/'],
            rest,
        ) == dir + seq!['/'] + rest && joined(Seq::empty(), rest) == rest,
        rest.len() > 0 && rest[0] == '/' ==> joined(dir, rest) == rest,
{
    assert(dir.push('/') == dir + seq!['/']);
    assert(Seq::<char>::empty() + rest == rest);
}

/// Meetings are kept where the settings say, a tilde standing for the home directory, and
/// among the documents where they say nothing.
pub proof fn law_meetings_are_kept_where_told(
    told: Seq<char>,
    home: Seq<char>,
    rest: Seq<char>,
)
    requires
        home.len() > 0 && home.last() != '/',
        rest.len() == 0 || rest[0] != '/',
    ensures
        trim_spec(told).len() == 0 ==> meetings_dir(told, Some(home)) == Some(
            home + "/Documents/Lark Meetings"@,
        ) && meetings_dir(told, None) is None,
        trim_spec(told) == "~/"@ + rest ==> meetings_dir(told, Some(home)) == Some(
            home + "/"@ + rest,
        ) && meetings_dir(told, None) is None,
        trim_spec(told).len() > 0 && !"~/"@.is_prefix_of(trim_spec(told)) ==> meetings_dir(
            told,
            Some(home),
        ) == Some(trim_spec(told)) && meetings_dir(told, None) == Some(trim_spec(told)),
{
    reveal_strlit("~/");
    reveal_strlit("/");
    reveal_strlit("Documents");
    reveal_strlit("Lark Meetings");
    reveal_strlit("/Documents/Lark Meetings");
    law_paths_go_on_behind_the_directory(home, rest);
    assert(home + seq!['/'] + rest == home + "/"@ + rest);
    assert(("~/"@ + rest).take(2) == "~/"@);
    assert(("~/"@ + rest).skip(2) == rest);
    law_paths_go_on_behind_the_directory(home, "Documents"@);
    let documents = home + seq!['/'] + "Documents"@;
    assert(documents.last() == 's');
    law_paths_go_on_behind_the_directory(documents, "Lark Meetings"@);
    assert(documents + seq!['/'] + "Lark Meetings"@ == home + "/Documents/Lark Meetings"@);
}

proof fn lemma_no_dot(s: Seq<char>)
    requires
        forall|k: int| 0 <= k < s.len() ==> #[trigger] s[k] != '.',
    ensures
        last_dot(s) is None,
    decreases s.len(),
{
    if s.len() > 0 {
        assert(s[s.len() - 1] != '.');
        lemma_no_dot(s.drop_last());
    }
}

/// The extension is what stands behind the last dot of a name, and the stem what stands
/// before it; a dot that the name begins with makes none.
pub proof fn law_extension_stands_behind_the_last_dot(stem: Seq<char>, ext: Seq<char>)
    requires
        forall|k: int| 0 <= k < ext.len() ==> #[trigger] ext[k] != '.',
    ensures
        stem.len() > 0 ==> extension(stem + seq!['.'] + ext) == Some(ext) && file_stem(
            stem + seq!['.'] + ext,
        ) == stem,
        extension(seq!['.'] + ext) is None && file_stem(seq!['.'] + ext) == seq!['.'] + ext,
        extension(ext) is None && file_stem(ext) == ext,
{
    let name = stem + seq!['.'] + ext;
    assert forall|k: int| stem.len() < k < name.len() implies name[k] != '.' by {
        assert(name[k] == ext[k - stem.len() - 1]);
    }
    lemma_last_dot(name, stem.len() as int);
    assert(name.skip(stem.len() as int + 1) == ext);
    assert(name.take(stem.len() as int) == stem);
    let hidden = seq!['.'] + ext;
    assert forall|k: int| 0 < k < hidden.len() implies hidden[k] != '.' by {
        assert(hidden[k] == ext[k - 1]);
    }
    lemma_last_dot(hidden, 0);
    lemma_no_dot(ext);
}

/// Audio goes once it was last written more than a day ago, however its extension is
/// capitalised, and nothing else goes; what was written at no known time stays.
pub proof fn law_audio_goes_after_a_day(
    stem: Seq<char>,
    ext: Seq<char>,
    written_ns: i128,
    now_ns: i128,
)
    requires
        stem.len() > 0,
        forall|k: int| 0 <= k < ext.len() ==> #[trigger] ext[k] != '.',
    ensures
        expired(stem + seq!['.'] + ext, Some(written_ns), now_ns) <==> {
            &&& ext.len() == 3
            &&& ext[0] == 'w' || ext[0] == 'W'
            &&& ext[1] == 'a' || ext[1] == 'A'
            &&& ext[2] == 'v' || ext[2] == 'V'
            &&& now_ns - written_ns > 24 * 60 * 60 * 1_000_000_000
        },
        !expired(stem + seq!['.'] + ext, None, now_ns),
        !expired(ext, Some(written_ns), now_ns),
{
    reveal_strlit("wav");
    law_extension_stands_behind_the_last_dot(stem, ext);
    let low = ascii_lower_spec(ext);
    if ext.len() == 3 {
        lemma_small(ext[0]);
        lemma_small(ext[1]);
        lemma_small(ext[2]);
        assert(low[0] == ascii_lower_char(ext[0]) && low[1] == ascii_lower_char(ext[1]) && low[2]
            == ascii_lower_char(ext[2]));
        if low[0] == 'w' && low[1] == 'a' && low[2] == 'v' {
            assert(low == "wav"@);
        }
    } else {
        assert(low.len() == ext.len());
    }
}

proof fn lemma_small(c: char)
    ensures
        ascii_lower_char(c) == 'w' <==> c == 'w' || c == 'W',
        ascii_lower_char(c) == 'a' <==> c == 'a' || c == 'A',
        ascii_lower_char(c) == 'v' <==> c == 'v' || c == 'V',
{
}

} // verus!
