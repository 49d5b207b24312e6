//! The words of the tray menu in the user's language.

use vstd::prelude::*;

use crate::text::{chars_of, first_at, law_first_place_is_found, position_of, views};

verus! {

/// The words of the tray menu.
pub struct TrayStrings {
    pub settings: String,
    pub copy_last_transcript: String,
    pub quit: String,
    pub cancel: String,
    pub unload_model: String,
    pub meeting_start: String,
    pub meeting_stop: String,
    pub meeting_processing: String,
    pub meetings_done: String,
}

/// The words that a language has for the tray menu; some may be missing.
pub struct Translation {
    pub settings: Option<String>,
    pub copy_last_transcript: Option<String>,
    pub quit: Option<String>,
    pub cancel: Option<String>,
    pub unload_model: Option<String>,
    pub meeting_start: Option<String>,
    pub meeting_stop: Option<String>,
    pub meeting_processing: Option<String>,
    pub meetings_done: Option<String>,
}

/// The translations there are: English in full, and for each of the locales what
/// it has.
pub struct Catalogue {
    pub english: TrayStrings,
    pub locales: Vec<String>,
    pub translations: Vec<Translation>,
}

impl Catalogue {
    /// Whether each locale has its translation.
    pub open spec fn valid(self) -> bool {
        self.locales@.len() == self.translations@.len()
    }
}

/// The language of a locale: `pt` for `pt-BR` or `pt_BR`.
pub open spec fn language_of(locale: Seq<char>) -> Seq<char>
    decreases locale.len(),
{
    if locale.len() == 0 || locale[0] == '-' || locale[0] == '_' {
        Seq::empty()
    } else {
        seq![locale[0]] + language_of(locale.drop_first())
    }
}

/// Which translation serves a locale: its own, or else that of its language.
pub open spec fn serving(locales: Seq<Seq<char>>, locale: Seq<char>) -> Option<int> {
    match first_at(locales, locale) {
        Some(k) => Some(k),
        None => first_at(locales, language_of(locale)),
    }
}

/// A word of a translation, or the English one where it is missing or empty.
pub open spec fn word(own: Option<String>, english: String) -> Seq<char> {
    match own {
        Some(w) => if w@.len() > 0 {
            w@
        } else {
            english@
        },
        None => english@,
    }
}

/// Whether the words are those of a translation, with English where it has none.
pub open spec fn filled(r: TrayStrings, own: Translation, english: TrayStrings) -> bool {
    &&& r.settings@ == word(own.settings, english.settings)
    &&& r.copy_last_transcript@ == word(own.copy_last_transcript, english.copy_last_transcript)
    &&& r.quit@ == word(own.quit, english.quit)
    &&& r.cancel@ == word(own.cancel, english.cancel)
    &&& r.unload_model@ == word(own.unload_model, english.unload_model)
    &&& r.meeting_start@ == word(own.meeting_start, english.meeting_start)
    &&& r.meeting_stop@ == word(own.meeting_stop, english.meeting_stop)
    &&& r.meeting_processing@ == word(own.meeting_processing, english.meeting_processing)
    &&& r.meetings_done@ == word(own.meetings_done, english.meetings_done)
}

/// Whether the words are the same.
pub open spec fn same_words(a: TrayStrings, b: TrayStrings) -> bool {
    &&& a.settings@ == b.settings@
    &&& a.copy_last_transcript@ == b.copy_last_transcript@
    &&& a.quit@ == b.quit@
    &&& a.cancel@ == b.cancel@
    &&& a.unload_model@ == b.unload_model@
    &&& a.meeting_start@ == b.meeting_start@
    &&& a.meeting_stop@ == b.meeting_stop@
    &&& a.meeting_processing@ == b.meeting_processing@
    &&& a.meetings_done@ == b.meetings_done@
}

/// Whether no word is empty.
pub open spec fn complete(s: TrayStrings) -> bool {
    &&& s.settings@.len() > 0
    &&& s.copy_last_transcript@.len() > 0
    &&& s.quit@.len() > 0
    &&& s.cancel@.len() > 0
    &&& s.unload_model@.len() > 0
    &&& s.meeting_start@.len() > 0
    &&& s.meeting_stop@.len() > 0
    &&& s.meeting_processing@.len() > 0
    &&& s.meetings_done@.len() > 0
}

fn pick(own: &Option<String>, english: &String) -> (r: String)
    ensures
        r@ == word(*own, *english),
{
    match own {
        Some(w) => {
            if w.as_str().unicode_len() > 0 {
                w.clone()
            } else {
                english.clone()
            }
        },
        None => english.clone(),
    }
}

fn language(locale: &str) -> (r: String)
    ensures
        r@ == language_of(locale@),
{
    let v = chars_of(locale);
    let mut out = String::new();
    let mut i: usize = 0;
    assert(v@.skip(0) == v@);
    assert(out@ + language_of(v@) == language_of(v@));
    while i < v.len()
        invariant
            i <= v@.len(),
            v@ == locale@,
            out@ + language_of(v@.skip(i as int)) == language_of(locale@),
        decreases v@.len() - i,
    {
        let ghost rest = v@.skip(i as int);
        assert(rest[0] == v@[i as int]);
        assert(rest.drop_first() == v@.skip(i + 1));
        if v[i] == '-' || v[i] == '_' {
            assert(out@ + language_of(rest) == out@);
            return out;
        }
        let ghost before = out@;
        out.push(v[i]);
        assert(before + (seq![rest[0]] + language_of(rest.drop_first())) == out@ + language_of(
            rest.drop_first(),
        ));
        i += 1;
    }
    assert(out@ + language_of(v@.skip(i as int)) == out@);
    out
}

fn find_translation(locales: &Vec<String>, locale: &str) -> (r: Option<usize>)
    ensures
        match r {
            Some(k) => serving(views(locales@), locale@) == Some(k as int) && k < locales@.len(),
            None => serving(views(locales@), locale@) is None,
        },
{
    match position_of(locales, locale) {
        Some(k) => Some(k),
        None => {
            let base = language(locale);
            position_of(locales, base.as_str())
        },
    }
}

fn english_words(e: &TrayStrings) -> (r: TrayStrings)
    ensures
        same_words(r, *e),
{
    TrayStrings {
        settings: e.settings.clone(),
        copy_last_transcript: e.copy_last_transcript.clone(),
        quit: e.quit.clone(),
        cancel: e.cancel.clone(),
        unload_model: e.unload_model.clone(),
        meeting_start: e.meeting_start.clone(),
        meeting_stop: e.meeting_stop.clone(),
        meeting_processing: e.meeting_processing.clone(),
        meetings_done: e.meetings_done.clone(),
    }
}

/// The words of the tray menu for a locale: those of its translation, or that of
/// its language, and English for each word that it lacks.
pub fn get_tray_translations(locale: Option<String>, catalogue: &Catalogue) -> (r: TrayStrings)
    requires
        catalogue.valid(),
    ensures
        match locale {
            Some(l) => match serving(views(catalogue.locales@), l@) {
                Some(k) => filled(r, catalogue.translations@[k], catalogue.english),
                None => same_words(r, catalogue.english),
            },
            None => same_words(r, catalogue.english),
        },
        complete(catalogue.english) ==> complete(r),
{
    let e = &catalogue.english;
    let k: usize = match &locale {
        Some(l) => match find_translation(&catalogue.locales, l.as_str()) {
            Some(k) => k,
            None => {
                return english_words(e);
            },
        },
        None => {
            return english_words(e);
        },
    };
    let own = &catalogue.translations[k];
    TrayStrings {
        settings: pick(&own.settings, &e.settings),
        copy_last_transcript: pick(&own.copy_last_transcript, &e.copy_last_transcript),
        quit: pick(&own.quit, &e.quit),
        cancel: pick(&own.cancel, &e.cancel),
        unload_model: pick(&own.unload_model, &e.unload_model),
        meeting_start: pick(&own.meeting_start, &e.meeting_start),
        meeting_stop: pick(&own.meeting_stop, &e.meeting_stop),
        meeting_processing: pick(&own.meeting_processing, &e.meeting_processing),
        meetings_done: pick(&own.meetings_done, &e.meetings_done),
    }
}

/// The language of a locale is what stands before its first dash or underscore, or all of
/// it where there is none.
pub proof fn law_language_comes_before_the_region(locale: Seq<char>) -> (rest: Seq<char>)
    ensures
        locale == language_of(locale) + rest,
        forall|i: int|
            0 <= i < language_of(locale).len() ==> #[trigger] language_of(locale)[i] != '-'
                && language_of(locale)[i] != '_',
        rest.len() > 0 ==> rest[0] == '-' || rest[0] == '_',
    decreases locale.len(),
{
    if locale.len() == 0 || locale[0] == '-' || locale[0] == '_' {
        assert(language_of(locale) + locale == locale);
        locale
    } else {
        let tail = locale.drop_first();
        let rest = law_language_comes_before_the_region(tail);
        let l = language_of(locale);
        assert(locale == seq![locale[0]] + (language_of(tail) + rest));
        assert(locale == l + rest);
        assert forall|i: int| 0 <= i < l.len() implies #[trigger] l[i] != '-' && l[i] != '_' by {
            if i > 0 {
                assert(l[i] == language_of(tail)[i - 1]);
            }
        }
        rest
    }
}

/// A locale is served by its own translation wherever it has one, else by that of its
/// language, and by none only where there is neither.
pub proof fn law_locales_are_served(locales: Seq<Seq<char>>, locale: Seq<char>)
    ensures
        match serving(locales, locale) {
            Some(k) => {
                &&& 0 <= k < locales.len()
                &&& locales[k] == locale || locales[k] == language_of(locale)
                &&& locales.contains(locale) ==> locales[k] == locale
            },
            None => !locales.contains(locale) && !locales.contains(language_of(locale)),
        },
{
    law_first_place_is_found(locales, locale);
    law_first_place_is_found(locales, language_of(locale));
}

/// Each word is the translation's own wherever it has one that is not empty, and the
/// English one otherwise, and stands for the same entry.
pub proof fn law_words_are_filled_in(r: TrayStrings, own: Translation, english: TrayStrings)
    requires
        filled(r, own, english),
    ensures
        stands_in(r.settings, own.settings, english.settings),
        stands_in(r.copy_last_transcript, own.copy_last_transcript, english.copy_last_transcript),
        stands_in(r.quit, own.quit, english.quit),
        stands_in(r.cancel, own.cancel, english.cancel),
        stands_in(r.unload_model, own.unload_model, english.unload_model),
        stands_in(r.meeting_start, own.meeting_start, english.meeting_start),
        stands_in(r.meeting_stop, own.meeting_stop, english.meeting_stop),
        stands_in(r.meeting_processing, own.meeting_processing, english.meeting_processing),
        stands_in(r.meetings_done, own.meetings_done, english.meetings_done),
{
}

/// Whether `r` is the own word, or the English one where that is missing or empty.
pub open spec fn stands_in(r: String, own: Option<String>, english: String) -> bool {
    &&& own is Some && own->0@.len() > 0 ==> r@ == own->0@
    &&& own is None || own->0@.len() == 0 ==> r@ == english@
}

} // verus!
