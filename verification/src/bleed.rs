//! Dropping the far side's words from the microphone track.
//!
//! Without headphones the microphone also hears the call audio from the
//! speakers, so the far side shows up on both tracks. The system track is the
//! authoritative copy.

use vstd::prelude::*;

use crate::segments::SAMPLE_RATE;
use crate::text::same_text;

verus! {

/// A transcribed segment: its first sample, its speaker and its words.
pub type Entry = (usize, &'static str, String);

/// The speaker on the microphone track.
pub const MIC_SPEAKER: &'static str = "Kole";

/// The speakers on the system track.
pub const SYSTEM_SPEAKER: &'static str = "Them";

/// Two lines this many samples apart, 8 s, are not copies of each other.
pub const BLEED_WINDOW: usize = 8 * SAMPLE_RATE;

pub open spec fn min3(a: nat, b: nat, c: nat) -> nat {
    if a <= b && a <= c {
        a
    } else if b <= c {
        b
    } else {
        c
    }
}

/// The fewest insertions, deletions and substitutions of one character that turn
/// `a` into `b`.
pub open spec fn edit_distance(a: Seq<char>, b: Seq<char>) -> nat
    decreases a.len() + b.len(),
{
    if a.len() == 0 {
        b.len()
    } else if b.len() == 0 {
        a.len()
    } else {
        min3(
            edit_distance(a.drop_last(), b) + 1,
            edit_distance(a, b.drop_last()) + 1,
            edit_distance(a.drop_last(), b.drop_last()) + if a.last() == b.last() {
                0nat
            } else {
                1nat
            },
        )
    }
}

/// `strsim::levenshtein` is the edit distance of the two texts, counted in
/// characters.
#[verifier::external_body]
fn levenshtein(a: &str, b: &str) -> (d: usize)
    ensures
        d == edit_distance(a@, b@),
{
    strsim::levenshtein(a, b)
}

/// Whether the texts are more than 75 % alike: fewer edits apart than a quarter
/// of the longer one's length. Two empty texts are alike.
pub open spec fn alike(a: Seq<char>, b: Seq<char>) -> bool {
    let longer = if a.len() < b.len() {
        b.len()
    } else {
        a.len()
    };
    longer == 0 || 4 * edit_distance(a, b) < longer
}

fn are_alike(a: &str, b: &str) -> (r: bool)
    ensures
        r == alike(a@, b@),
{
    let a_len: usize = crate::text::chars_of(a).len();
    let b_len: usize = crate::text::chars_of(b).len();
    let longer: usize = if a_len < b_len {
        b_len
    } else {
        a_len
    };
    if longer == 0 {
        return true;
    }
    let d: usize = levenshtein(a, b);
    4 * (d as u128) < longer as u128
}

/// Whether two lines start less than `BLEED_WINDOW` samples apart.
pub open spec fn close_in_time(a: int, b: int) -> bool {
    -BLEED_WINDOW < a - b < BLEED_WINDOW
}

/// Whether `e` is a microphone line that nearly repeats the system line `other`.
pub open spec fn repeats(e: Entry, other: Entry) -> bool {
    &&& e.1@ == MIC_SPEAKER@
    &&& other.1@ == SYSTEM_SPEAKER@
    &&& close_in_time(e.0 as int, other.0 as int)
    &&& alike(e.2@, other.2@)
}

/// Whether `e` nearly repeats one of the entries.
pub open spec fn is_bleed(e: Entry, entries: Seq<Entry>) -> bool {
    exists|j: int| 0 <= j < entries.len() && repeats(e, #[trigger] entries[j])
}

/// The entries that are not bleed, in their order.
pub open spec fn without_bleed(entries: Seq<Entry>) -> Seq<Entry> {
    entries.filter(|e: Entry| !is_bleed(e, entries))
}

fn repeats_one_of(e: &Entry, entries: &Vec<Entry>) -> (r: bool)
    ensures
        r == is_bleed(*e, entries@),
{
    if !same_text(e.1, MIC_SPEAKER) {
        return false;
    }
    let mut j: usize = 0;
    while j < entries.len()
        invariant
            j <= entries@.len(),
            e.1@ == MIC_SPEAKER@,
            forall|k: int| 0 <= k < j ==> !repeats(*e, #[trigger] entries@[k]),
        decreases entries@.len() - j,
    {
        let other = &entries[j];
        let apart: usize = if e.0 < other.0 {
            other.0 - e.0
        } else {
            e.0 - other.0
        };
        if same_text(other.1, SYSTEM_SPEAKER) && apart < BLEED_WINDOW && are_alike(
            e.2.as_str(),
            other.2.as_str(),
        ) {
            assert(repeats(*e, entries@[j as int]));
            return true;
        }
        j += 1;
    }
    false
}

/// Drops each microphone line that nearly repeats a system line close in time.
pub fn drop_mic_bleed(entries: Vec<Entry>) -> (r: Vec<Entry>)
    requires
        forall|j: int| 0 <= j < entries@.len() ==> (#[trigger] entries@[j]).0 <= i64::MAX,
    ensures
        r@ == without_bleed(entries@),
{
    let ghost keep = |e: Entry| !is_bleed(e, entries@);
    let mut out: Vec<Entry> = Vec::new();
    let mut i: usize = 0;
    proof {
        reveal(Seq::filter);
    }
    assert(entries@.take(0).filter(keep) == Seq::<Entry>::empty());
    while i < entries.len()
        invariant
            i <= entries@.len(),
            keep == |e: Entry| !is_bleed(e, entries@),
            out@ == entries@.take(i as int).filter(keep),
        decreases entries@.len() - i,
    {
        proof {
            reveal(Seq::filter);
            assert(entries@.take(i + 1).drop_last() == entries@.take(i as int));
        }
        let e = &entries[i];
        if !repeats_one_of(e, &entries) {
            out.push((e.0, e.1, e.2.clone()));
        }
        i += 1;
    }
    assert(entries@.take(i as int) == entries@);
    out
}

/// A text is no edits away from itself.
pub proof fn law_edit_distance_reflexive(a: Seq<char>)
    ensures
        edit_distance(a, a) == 0,
    decreases a.len(),
{
    if a.len() > 0 {
        law_edit_distance_reflexive(a.drop_last());
    }
}

/// Turning one text into the other takes as many edits as turning it back.
pub proof fn law_edit_distance_symmetric(a: Seq<char>, b: Seq<char>)
    ensures
        edit_distance(a, b) == edit_distance(b, a),
    decreases a.len() + b.len(),
{
    if a.len() > 0 && b.len() > 0 {
        law_edit_distance_symmetric(a.drop_last(), b);
        law_edit_distance_symmetric(a, b.drop_last());
        law_edit_distance_symmetric(a.drop_last(), b.drop_last());
    }
}

proof fn lemma_filter_twice<T>(s: Seq<T>, p: spec_fn(T) -> bool, q: spec_fn(T) -> bool)
    ensures
        s.filter(p).filter(q) == s.filter(|x: T| p(x) && q(x)),
    decreases s.len(),
{
    reveal(Seq::filter);
    let both = |x: T| p(x) && q(x);
    if s.len() > 0 {
        lemma_filter_twice(s.drop_last(), p, q);
        assert(s.drop_last().filter(p).push(s.last()).drop_last() == s.drop_last().filter(p));
    }
}

proof fn lemma_filter_same<T>(s: Seq<T>, p: spec_fn(T) -> bool, q: spec_fn(T) -> bool)
    requires
        forall|k: int| 0 <= k < s.len() ==> p(#[trigger] s[k]) == q(s[k]),
    ensures
        s.filter(p) == s.filter(q),
    decreases s.len(),
{
    reveal(Seq::filter);
    if s.len() > 0 {
        lemma_filter_same(s.drop_last(), p, q);
        assert(p(s[s.len() - 1]) == q(s[s.len() - 1]));
    }
}

proof fn lemma_speakers_differ()
    ensures
        MIC_SPEAKER@ != SYSTEM_SPEAKER@,
{
    reveal_strlit("Kole");
    reveal_strlit("Them");
    assert("Kole"@[0] != "Them"@[0]);
}

/// System lines are never dropped, nor put in another order.
pub proof fn law_system_lines_stay(entries: Seq<Entry>)
    ensures
        without_bleed(entries).filter(|e: Entry| e.1@ != MIC_SPEAKER@) == entries.filter(
            |e: Entry| e.1@ != MIC_SPEAKER@,
        ),
        without_bleed(entries).filter(|e: Entry| e.1@ == SYSTEM_SPEAKER@) == entries.filter(
            |e: Entry| e.1@ == SYSTEM_SPEAKER@,
        ),
{
    let keep = |e: Entry| !is_bleed(e, entries);
    let other = |e: Entry| e.1@ != MIC_SPEAKER@;
    let system = |e: Entry| e.1@ == SYSTEM_SPEAKER@;
    lemma_speakers_differ();
    lemma_filter_twice(entries, keep, other);
    lemma_filter_same(entries, |e: Entry| keep(e) && other(e), other);
    lemma_filter_twice(entries, keep, system);
    lemma_filter_same(entries, |e: Entry| keep(e) && system(e), system);
}

/// A line is kept exactly when it is not bleed.
pub proof fn law_kept_lines(entries: Seq<Entry>, e: Entry)
    requires
        entries.contains(e),
    ensures
        without_bleed(entries).contains(e) <==> !is_bleed(e, entries),
{
    broadcast use vstd::seq_lib::group_filter_ensures;

    let keep = |x: Entry| !is_bleed(x, entries);
    let i = choose|i: int| 0 <= i < entries.len() && entries[i] == e;
    if keep(e) {
        assert(entries.filter(keep).contains(entries[i]));
    } else if entries.filter(keep).contains(e) {
        let n = choose|n: int| 0 <= n < entries.filter(keep).len() && entries.filter(keep)[n] == e;
        assert(keep(entries.filter(keep)[n]));
    }
}

/// A microphone line with the very words of a system line close in time is
/// dropped.
pub proof fn law_exact_copy_is_dropped(entries: Seq<Entry>, i: int, j: int)
    requires
        0 <= i < entries.len(),
        0 <= j < entries.len(),
        entries[i].1@ == MIC_SPEAKER@,
        entries[j].1@ == SYSTEM_SPEAKER@,
        close_in_time(entries[i].0 as int, entries[j].0 as int),
        entries[i].2@ == entries[j].2@,
    ensures
        !without_bleed(entries).contains(entries[i]),
{
    law_edit_distance_reflexive(entries[i].2@);
    assert(repeats(entries[i], entries[j]));
    law_kept_lines(entries, entries[i]);
}

/// A microphone line with no system line close in time is kept, whatever its
/// words.
pub proof fn law_lone_mic_line_is_kept(entries: Seq<Entry>, i: int)
    requires
        0 <= i < entries.len(),
        forall|j: int|
            0 <= j < entries.len() && (#[trigger] entries[j]).1@ == SYSTEM_SPEAKER@
                ==> !close_in_time(entries[i].0 as int, entries[j].0 as int),
    ensures
        without_bleed(entries).contains(entries[i]),
{
    law_kept_lines(entries, entries[i]);
}

/// Dropping bleed a second time drops nothing more.
pub proof fn law_dropping_bleed_once_is_enough(entries: Seq<Entry>)
    ensures
        without_bleed(without_bleed(entries)) == without_bleed(entries),
{
    broadcast use vstd::seq_lib::group_filter_ensures;

    let kept = without_bleed(entries);
    let keep = |e: Entry| !is_bleed(e, entries);
    let keep_again = |e: Entry| !is_bleed(e, kept);
    assert forall|k: int| 0 <= k < kept.len() implies keep_again(#[trigger] kept[k]) by {
        assert(keep(kept[k]));
        if is_bleed(kept[k], kept) {
            let j = choose|j: int| 0 <= j < kept.len() && repeats(kept[k], #[trigger] kept[j]);
            lemma_filter_members(entries, keep, j);
            let n = choose|n: int| 0 <= n < entries.len() && entries[n] == kept[j];
            assert(repeats(kept[k], entries[n]));
        }
    }
    lemma_filter_same(kept, keep_again, |e: Entry| true);
    lemma_filter_all(kept);
}

proof fn lemma_filter_members<T>(s: Seq<T>, p: spec_fn(T) -> bool, k: int)
    requires
        0 <= k < s.filter(p).len(),
    ensures
        s.contains(s.filter(p)[k]),
    decreases s.len(),
{
    reveal(Seq::filter);
    if s.len() > 0 {
        let earlier = s.drop_last().filter(p);
        if k < earlier.len() {
            lemma_filter_members(s.drop_last(), p, k);
            let n = choose|n: int|
                0 <= n < s.drop_last().len() && s.drop_last()[n] == earlier[k];
            assert(s[n] == s.filter(p)[k]);
        } else {
            assert(s[s.len() - 1] == s.filter(p)[k]);
        }
    }
}

proof fn lemma_filter_all<T>(s: Seq<T>)
    ensures
        s.filter(|x: T| true) == s,
    decreases s.len(),
{
    reveal(Seq::filter);
    if s.len() > 0 {
        lemma_filter_all(s.drop_last());
    }
}

/// Whether `e` was said on the microphone, and a line of the system track that starts
/// less than 8 s from it is fewer edits away than a quarter of the longer text, or is
/// empty like it.
pub open spec fn heard_from_the_speakers(e: Entry, entries: Seq<Entry>) -> bool {
    e.1@ == "Kole"@ && exists|j: int|
        {
            &&& 0 <= j < entries.len()
            &&& (#[trigger] entries[j]).1@ == "Them"@
            &&& e.0 - entries[j].0 < 8 * 16_000
            &&& entries[j].0 - e.0 < 8 * 16_000
            &&& e.2@.len() == 0 && entries[j].2@.len() == 0 || 4 * edit_distance(
                e.2@,
                entries[j].2@,
            ) < e.2@.len() || 4 * edit_distance(e.2@, entries[j].2@) < entries[j].2@.len()
        }
}

proof fn lemma_bleed_is_heard_from_the_speakers(e: Entry, entries: Seq<Entry>)
    ensures
        is_bleed(e, entries) == heard_from_the_speakers(e, entries),
{
    if is_bleed(e, entries) {
        let j = choose|j: int| 0 <= j < entries.len() && repeats(e, #[trigger] entries[j]);
        assert(entries[j].1@ == "Them"@);
    }
    if heard_from_the_speakers(e, entries) {
        let j = choose|j: int|
            {
                &&& 0 <= j < entries.len()
                &&& (#[trigger] entries[j]).1@ == "Them"@
                &&& e.0 - entries[j].0 < 8 * 16_000
                &&& entries[j].0 - e.0 < 8 * 16_000
                &&& e.2@.len() == 0 && entries[j].2@.len() == 0 || 4 * edit_distance(
                    e.2@,
                    entries[j].2@,
                ) < e.2@.len() || 4 * edit_distance(e.2@, entries[j].2@) < entries[j].2@.len()
            };
        assert(repeats(e, entries[j]));
    }
}

/// Only near-copies are dropped: what is left of the lines, in their order and as often
/// as they stand there, is each line that was not heard from the speakers.
pub proof fn law_only_near_copies_are_dropped(entries: Seq<Entry>)
    ensures
        without_bleed(entries) == entries.filter(
            |e: Entry| !heard_from_the_speakers(e, entries),
        ),
        forall|i: int|
            0 <= i < entries.len() ==> (without_bleed(entries).contains(#[trigger] entries[i])
                <==> !heard_from_the_speakers(entries[i], entries)),
{
    let keep = |e: Entry| !is_bleed(e, entries);
    let raw = |e: Entry| !heard_from_the_speakers(e, entries);
    assert forall|k: int| 0 <= k < entries.len() implies keep(#[trigger] entries[k]) == raw(
        entries[k],
    ) by {
        lemma_bleed_is_heard_from_the_speakers(entries[k], entries);
    }
    lemma_filter_same(entries, keep, raw);
    assert forall|i: int| 0 <= i < entries.len() implies (without_bleed(entries).contains(
        #[trigger] entries[i],
    ) <==> !heard_from_the_speakers(entries[i], entries)) by {
        law_kept_lines(entries, entries[i]);
        assert(keep(entries[i]) == raw(entries[i]));
    }
}

/// Texts that share no character are as far apart as the longer one is long.
pub proof fn law_unlike_texts_are_far_apart(a: Seq<char>, b: Seq<char>)
    requires
        forall|i: int, j: int|
            0 <= i < a.len() && 0 <= j < b.len() ==> #[trigger] a[i] != #[trigger] b[j],
    ensures
        edit_distance(a, b) >= a.len(),
        edit_distance(a, b) >= b.len(),
    decreases a.len() + b.len(),
{
    if a.len() > 0 && b.len() > 0 {
        let (x, y) = (a.drop_last(), b.drop_last());
        assert forall|i: int, j: int| 0 <= i < x.len() && 0 <= j < b.len() implies #[trigger] x[i]
            != #[trigger] b[j] by {
            assert(a[i] != b[j]);
        }
        assert forall|i: int, j: int| 0 <= i < a.len() && 0 <= j < y.len() implies #[trigger] a[i]
            != #[trigger] y[j] by {
            assert(a[i] != b[j]);
        }
        assert forall|i: int, j: int| 0 <= i < x.len() && 0 <= j < y.len() implies #[trigger] x[i]
            != #[trigger] y[j] by {
            assert(a[i] != b[j]);
        }
        law_unlike_texts_are_far_apart(x, b);
        law_unlike_texts_are_far_apart(a, y);
        law_unlike_texts_are_far_apart(x, y);
        assert(a[a.len() - 1] != b[b.len() - 1]);
    }
}

/// What the user says is kept: a line that shares no character with any system line
/// close in time stays, however long it is.
pub proof fn law_own_words_are_kept(entries: Seq<Entry>, i: int)
    requires
        0 <= i < entries.len(),
        entries[i].2@.len() > 0,
        forall|j: int, p: int, q: int|
            0 <= j < entries.len() && (#[trigger] entries[j]).1@ == "Them"@ && entries[i].0
                - entries[j].0 < 8 * 16_000 && entries[j].0 - entries[i].0 < 8 * 16_000 && 0 <= p
                < entries[i].2@.len() && 0 <= q < entries[j].2@.len() ==> #[trigger] entries[i].2@[p]
                != #[trigger] entries[j].2@[q],
    ensures
        without_bleed(entries).contains(entries[i]),
{
    law_only_near_copies_are_dropped(entries);
    let e = entries[i];
    if heard_from_the_speakers(e, entries) {
        let j = choose|j: int|
            {
                &&& 0 <= j < entries.len()
                &&& (#[trigger] entries[j]).1@ == "Them"@
                &&& e.0 - entries[j].0 < 8 * 16_000
                &&& entries[j].0 - e.0 < 8 * 16_000
                &&& e.2@.len() == 0 && entries[j].2@.len() == 0 || 4 * edit_distance(
                    e.2@,
                    entries[j].2@,
                ) < e.2@.len() || 4 * edit_distance(e.2@, entries[j].2@) < entries[j].2@.len()
            };
        let (a, b) = (e.2@, entries[j].2@);
        assert forall|p: int, q: int| 0 <= p < a.len() && 0 <= q < b.len() implies #[trigger] a[p]
            != #[trigger] b[q] by {
            assert(entries[i].2@[p] != entries[j].2@[q]);
        }
        law_unlike_texts_are_far_apart(a, b);
    }
}

/// Only equal texts are no edits apart, and no two are further apart than the longer one
/// is long, nor closer than their lengths.
pub proof fn law_edit_distance_tells_texts_apart(a: Seq<char>, b: Seq<char>)
    ensures
        edit_distance(a, b) == 0 <==> a == b,
        edit_distance(a, b) <= a.len() || edit_distance(a, b) <= b.len(),
        edit_distance(a, b) >= a.len() - b.len(),
        edit_distance(a, b) >= b.len() - a.len(),
    decreases a.len() + b.len(),
{
    if a.len() > 0 && b.len() > 0 {
        let (x, y) = (a.drop_last(), b.drop_last());
        law_edit_distance_tells_texts_apart(x, b);
        law_edit_distance_tells_texts_apart(a, y);
        law_edit_distance_tells_texts_apart(x, y);
        assert(a == x.push(a.last()));
        assert(b == y.push(b.last()));
    } else if a.len() == b.len() {
        assert(a == b);
    }
}

/// A way round is never shorter: the edits by way of a third text are at least as many.
pub proof fn law_no_detour_is_shorter(a: Seq<char>, b: Seq<char>, c: Seq<char>)
    ensures
        edit_distance(a, c) <= edit_distance(a, b) + edit_distance(b, c),
    decreases a.len() + b.len() + c.len(),
{
    law_edit_distance_tells_texts_apart(a, b);
    law_edit_distance_tells_texts_apart(b, c);
    law_edit_distance_tells_texts_apart(a, c);
    if a.len() > 0 && b.len() > 0 && c.len() > 0 {
        let (x, y, z) = (a.drop_last(), b.drop_last(), c.drop_last());
        law_no_detour_is_shorter(x, b, c);
        law_no_detour_is_shorter(a, b, z);
        law_no_detour_is_shorter(a, y, c);
        law_no_detour_is_shorter(a, y, z);
        law_no_detour_is_shorter(x, y, c);
        law_no_detour_is_shorter(x, y, z);
    }
}

/// One character more or less, at the end, is one edit at most.
pub proof fn law_one_character_is_one_edit(a: Seq<char>, b: Seq<char>, c: char)
    ensures
        edit_distance(a.push(c), b) <= edit_distance(a, b) + 1,
        edit_distance(a, b) <= edit_distance(a.push(c), b) + 1,
        edit_distance(a.push(c), b.push(c)) <= edit_distance(a, b),
{
    let d = a.push(c);
    assert(d.drop_last() == a);
    assert(b.push(c).drop_last() == b);
    law_edit_distance_reflexive(a);
    law_edit_distance_tells_texts_apart(a, d);
    assert(edit_distance(a, d) <= edit_distance(a, a) + 1) by {
        assert(d.drop_last() == a);
    }
    law_no_detour_is_shorter(a, d, b);
}

} // verus!
