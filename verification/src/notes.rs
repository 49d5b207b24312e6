//! Asking a language model for the notes of a meeting.

use vstd::prelude::*;
use vstd::string::*;
use vstd::utf8::encode_utf8;

use crate::document::Notes;
use crate::text::{
    cut_to_bytes, first_at, first_bytes, law_first_place_is_found, law_trimming_takes_white_space,
    lemma_cut, longer_than, position_of, same_text, trim, trim_spec, views, white_space,
};

verus! {

/// What the model is asked to write.
pub const NOTES_PROMPT: &'static str = "You are summarising a meeting transcript. \"Kole\" is the user; \"Them\" is everyone else on the call — the transcript cannot tell those people apart, so never invent names for them.\n\nWrite, in this order and nothing else:\n1. A `### Summary` section: 3-5 plain sentences on what the meeting was about and what was decided.\n2. An `### Action items` section: a markdown checklist (`- [ ] `), each line naming who owns it (Kole, or Them if it is the other side).\n3. An `### Open questions` section only if something was explicitly left unresolved.\n\nSections 2 and 3 are optional: if there is nothing to put in one, leave the heading out altogether. Never write a heading followed by \"none\" or \"nothing\" — an empty section is noise in a file other tools read.\n\nRules: use only what is in the transcript — never infer or embellish. Local speech-to-text produces garbled words; read past obvious mistranscriptions rather than quoting them. Write plainly, no jargon, no preamble.";

/// What the settings say about meeting notes.
pub struct NotesSettings {
    pub enabled: bool,
    /// The provider that is chosen, by its id.
    pub provider_id: String,
    /// The ids of the providers there are.
    pub providers: Vec<String>,
    /// The key for each provider id that has one.
    pub api_keys: Vec<(String, String)>,
    /// The model for each provider id that has one.
    pub models: Vec<(String, String)>,
    /// How many bytes of a transcript are sent at most.
    pub max_chars: usize,
}

/// What is sent to the provider.
pub struct NotesRequest {
    /// Which of the providers to ask.
    pub provider: usize,
    pub api_key: String,
    pub model: String,
    pub prompt: String,
}

/// The value kept for `id`, or an empty text.
pub open spec fn value_for(pairs: Seq<(String, String)>, id: Seq<char>) -> Seq<char>
    decreases pairs.len(),
{
    if pairs.len() == 0 {
        Seq::empty()
    } else if pairs[0].0@ == id {
        pairs[0].1@
    } else {
        value_for(pairs.drop_first(), id)
    }
}

/// The request to the model.
pub open spec fn prompt_text(part: Seq<char>, cut: bool) -> Seq<char> {
    NOTES_PROMPT@ + (if cut {
        "\n\nNote: this transcript was truncated — say so in one line at the end."@
    } else {
        ""@
    }) + "\n\nTranscript:\n"@ + part
}

/// Whether notes are wanted at all.
pub open spec fn wants_notes(settings: NotesSettings, transcript: Seq<char>) -> bool {
    settings.enabled && trim_spec(transcript).len() > 0
}

/// Whether the chosen provider is there and has a key and a model.
pub open spec fn can_ask(settings: NotesSettings) -> bool {
    &&& first_at(views(settings.providers@), settings.provider_id@) is Some
    &&& value_for(settings.api_keys@, settings.provider_id@).len() > 0
    &&& value_for(settings.models@, settings.provider_id@).len() > 0
}

fn find_value(pairs: &Vec<(String, String)>, id: &str) -> (r: String)
    ensures
        r@ == value_for(pairs@, id@),
{
    let mut i: usize = 0;
    assert(pairs@.skip(0) == pairs@);
    while i < pairs.len()
        invariant
            i <= pairs@.len(),
            value_for(pairs@.skip(i as int), id@) == value_for(pairs@, id@),
        decreases pairs@.len() - i,
    {
        assert(pairs@.skip(i as int)[0] == pairs@[i as int]);
        assert(pairs@.skip(i as int).drop_first() == pairs@.skip(i + 1));
        if same_text(pairs[i].0.as_str(), id) {
            return pairs[i].1.clone();
        }
        i += 1;
    }
    String::new()
}

/// The request for notes on a transcript: none where notes are off, there is
/// nothing to note or the provider has no key or model, which are normal states;
/// an error where the chosen provider is not there.
pub fn meeting_notes(settings: &NotesSettings, transcript: &str) -> (r: Result<
    Option<NotesRequest>,
    String,
>)
    ensures
        match r {
            Err(e) => {
                &&& wants_notes(*settings, transcript@)
                &&& first_at(views(settings.providers@), settings.provider_id@) is None
                &&& e@ == "provider "@ + settings.provider_id@ + " not found"@
            },
            Ok(None) => {
                ||| !wants_notes(*settings, transcript@)
                ||| first_at(views(settings.providers@), settings.provider_id@) is Some && !can_ask(
                    *settings,
                )
            },
            Ok(Some(q)) => {
                &&& wants_notes(*settings, transcript@)
                &&& can_ask(*settings)
                &&& first_at(views(settings.providers@), settings.provider_id@) == Some(q.provider as int)
                &&& q.api_key@ == value_for(settings.api_keys@, settings.provider_id@)
                &&& q.model@ == value_for(settings.models@, settings.provider_id@)
                &&& q.prompt@ == prompt_text(
                    first_bytes(transcript@, settings.max_chars as nat),
                    longer_than(transcript@, settings.max_chars as nat),
                )
            },
        },
{
    if !settings.enabled || trim(transcript).unicode_len() == 0 {
        return Ok(None);
    }
    let id = settings.provider_id.as_str();
    let provider: usize = match position_of(&settings.providers, id) {
        Some(k) => k,
        None => {
            let mut e = "provider ".to_owned();
            e.append(id);
            e.append(" not found");
            return Err(e);
        },
    };
    let api_key = find_value(&settings.api_keys, id);
    let model = find_value(&settings.models, id);
    if api_key.as_str().unicode_len() == 0 || model.as_str().unicode_len() == 0 {
        return Ok(None);
    }
    let (part, cut) = cut_to_bytes(transcript, settings.max_chars);
    let mut prompt = NOTES_PROMPT.to_owned();
    prompt.append(
        if cut {
            "\n\nNote: this transcript was truncated — say so in one line at the end."
        } else {
            ""
        },
    );
    prompt.append("\n\nTranscript:\n");
    prompt.append(part);
    Ok(Some(NotesRequest { provider, api_key, model, prompt }))
}

/// What comes of the provider's reply: its text without white space around it,
/// and no notes where nothing is left.
pub fn notes_reply(reply: Result<Option<String>, String>) -> (r: Notes)
    ensures
        match reply {
            Err(e) => r matches Err(why) && why@ == e@,
            Ok(None) => r matches Ok(None),
            Ok(Some(t)) => if trim_spec(t@).len() == 0 {
                r matches Ok(None)
            } else {
                r matches Ok(Some(n)) && n@ == trim_spec(t@)
            },
        },
{
    match reply {
        Err(e) => Err(e),
        Ok(None) => Ok(None),
        Ok(Some(t)) => {
            let bare = trim(t.as_str());
            if bare.unicode_len() == 0 {
                Ok(None)
            } else {
                Ok(Some(bare.to_owned()))
            }
        },
    }
}

/// The spend guard holds: what is sent of a transcript is a beginning of it, of no
/// more bytes than allowed, and as long as that lets it be.
pub proof fn law_spend_is_bounded(transcript: Seq<char>, cap: nat)
    ensures
        encode_utf8(first_bytes(transcript, cap)).len() <= cap,
        first_bytes(transcript, cap).is_prefix_of(transcript),
        first_bytes(transcript, cap) == transcript || longer_than(
            transcript.take(first_bytes(transcript, cap).len() as int + 1),
            cap,
        ),
{
    lemma_cut(transcript, cap);
}

/// The value for an id is the one beside its first mention, and empty where it is not
/// mentioned.
pub proof fn law_first_value_counts(pairs: Seq<(String, String)>, id: Seq<char>, k: int)
    requires
        0 <= k <= pairs.len(),
        forall|j: int| 0 <= j < k ==> (#[trigger] pairs[j]).0@ != id,
        k < pairs.len() ==> pairs[k].0@ == id,
    ensures
        k < pairs.len() ==> value_for(pairs, id) == pairs[k].1@,
        k == pairs.len() ==> value_for(pairs, id).len() == 0,
    decreases k,
{
    if k > 0 {
        let rest = pairs.drop_first();
        assert(pairs[0].0@ != id);
        assert forall|j: int| 0 <= j < k - 1 implies (#[trigger] rest[j]).0@ != id by {
            assert(rest[j] == pairs[j + 1]);
        }
        law_first_value_counts(rest, id, k - 1);
    }
}

/// Notes are wanted where they are switched on and the transcript holds anything but white
/// space, and can be asked for where the chosen provider is one of those there are and has
/// a key and a model.
pub proof fn law_notes_need_a_transcript_and_a_provider(
    settings: NotesSettings,
    transcript: Seq<char>,
)
    ensures
        wants_notes(settings, transcript) <==> settings.enabled && exists|i: int|
            0 <= i < transcript.len() && !white_space(#[trigger] transcript[i]),
        can_ask(settings) <==> {
            let id = settings.provider_id@;
            &&& exists|k: int|
                0 <= k < settings.providers@.len() && (#[trigger] settings.providers@[k])@ == id
            &&& value_for(settings.api_keys@, id).len() > 0
            &&& value_for(settings.models@, id).len() > 0
        },
{
    let (a, b) = law_trimming_takes_white_space(transcript);
    let t = trim_spec(transcript);
    if t.len() > 0 {
        assert(transcript[a.len() as int] == t[0]);
    } else {
        assert forall|i: int| 0 <= i < transcript.len() implies white_space(
            #[trigger] transcript[i],
        ) by {
            if i < a.len() {
                assert(transcript[i] == a[i]);
            } else {
                assert(transcript[i] == b[i - a.len()]);
            }
        }
    }
    let (ids, id) = (views(settings.providers@), settings.provider_id@);
    law_first_place_is_found(ids, id);
    assert forall|k: int| 0 <= k < ids.len() implies #[trigger] ids[k] == settings.providers@[k]@ by {}
    match first_at(ids, id) {
        Some(k) => {
            assert(settings.providers@[k]@ == id);
        },
        None => {
            assert forall|k: int| 0 <= k < settings.providers@.len() implies (
            #[trigger] settings.providers@[k])@ != id by {
                assert(ids[k] != id);
            }
        },
    }
}

/// The request is what the model is asked to write, that the transcript was cut where it
/// was, and the transcript.
pub proof fn law_request_ends_with_the_transcript(part: Seq<char>)
    ensures
        prompt_text(part, false) == NOTES_PROMPT@ + "\n\nTranscript:\n"@ + part,
        prompt_text(part, true) == NOTES_PROMPT@
            + "\n\nNote: this transcript was truncated — say so in one line at the end."@
            + "\n\nTranscript:\n"@ + part,
{
    reveal_strlit("");
    assert(NOTES_PROMPT@ + ""@ == NOTES_PROMPT@);
}

} // verus!
