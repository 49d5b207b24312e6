//! Choosing a calendar event for a recording, and for the menu bar.
//!
//! The calendar is read elsewhere; here its events are plain values. Times are whole
//! microseconds since the Unix epoch.

use vstd::prelude::*;

use crate::clock::{clock24, format_time_range, holds_epoch, local_hm, time_range, LocalClock};
use crate::platform::Platform;
use crate::text::{law_trimming_takes_white_space, trim, trim_spec, white_space};

verus! {

/// How far around now the calendar is searched, in seconds: wide enough for a
/// late start, narrow enough not to grab the next meeting on a back-to-back day.
pub const GRACE_SECS: u64 = 600;

/// How long an unanswered permission dialog is waited for, in milliseconds.
pub const ACCESS_WAIT_MS: u64 = 30_000;

/// One participant of an event.
pub struct Participant {
    pub name: Option<String>,
    pub is_current_user: bool,
    pub declined: bool,
    /// Whether this is the one who called the meeting, as far as that is known.
    pub is_organiser: bool,
}

/// One event of the calendar.
pub struct CalendarEvent {
    pub all_day: bool,
    pub title: String,
    pub participants: Vec<Participant>,
    pub start_us: i64,
    pub end_us: i64,
}

/// What the calendar knows about the meeting being recorded.
#[derive(Debug, Clone)]
pub struct CalendarContext {
    pub title: Option<String>,
    /// Names of the attendees, the organiser first where known. Empty when the event
    /// is a solo block.
    pub attendees: Vec<String>,
    /// Start and end of the event as Unix times, in seconds.
    pub start_epoch: Option<i64>,
    pub end_epoch: Option<i64>,
}

impl Default for CalendarContext {
    /// Nothing known.
    fn default() -> (r: Self)
        ensures
            r.title is None,
            r.attendees@.len() == 0,
            r.start_epoch is None,
            r.end_epoch is None,
    {
        CalendarContext { title: None, attendees: Vec::new(), start_epoch: None, end_epoch: None }
    }
}

impl CalendarContext {
    /// Whether neither a title nor an attendee is known. Only one system has a calendar
    /// that is read; elsewhere nothing ever counts as known.
    pub fn is_empty(&self, platform: Platform) -> (r: bool)
        ensures
            r == (match platform {
                Platform::MacOs => self.title is None && self.attendees@.len() == 0,
                _ => true,
            }),
    {
        match platform {
            Platform::MacOs => self.title.is_none() && self.attendees.len() == 0,
            _ => true,
        }
    }
}

/// What the menu bar needs to know about the meeting coming up.
#[derive(Debug, Clone, PartialEq)]
pub struct UpcomingEvent {
    pub title: String,
    /// Seconds until it starts; zero or negative once it is under way.
    pub starts_in_secs: i64,
    /// Local start time in 24 hours, such as `14:30`.
    pub start_hm: String,
}

/// The state of the day ahead. `Clear` and `Unavailable` are kept apart: only
/// one of them can honestly claim that the day is done.
#[derive(Debug, Clone, PartialEq)]
pub enum NextMeeting {
    /// Calendar readable, and something is still to come.
    Upcoming(UpcomingEvent),
    /// Calendar readable, nothing left today.
    Clear,
    /// No calendar access, so the day is unknown.
    Unavailable,
}

/// Whether the app may read the calendar, as the system answers.
#[derive(Clone, Copy, Debug, PartialEq, Eq, Structural)]
pub enum AccessStatus {
    NotDetermined,
    Restricted,
    Denied,
    FullAccess,
    WriteOnly,
}

/// Whether access is already granted. Reads the decision, never asks.
pub fn has_access(status: AccessStatus) -> (r: bool)
    ensures
        r == (status == AccessStatus::FullAccess),
{
    matches!(status, AccessStatus::FullAccess)
}

/// What to do about calendar access before a lookup: `Some` when the system has
/// decided, `None` when the user has to be asked.
pub fn access_decision(status: AccessStatus) -> (r: Option<bool>)
    ensures
        r == (match status {
            AccessStatus::FullAccess => Some(true),
            AccessStatus::Denied | AccessStatus::Restricted => Some(false),
            AccessStatus::NotDetermined | AccessStatus::WriteOnly => None,
        }),
{
    match status {
        AccessStatus::FullAccess => Some(true),
        AccessStatus::Denied => Some(false),
        AccessStatus::Restricted => Some(false),
        AccessStatus::NotDetermined => None,
        AccessStatus::WriteOnly => None,
    }
}

/// What a look at the permission dialog after `waited_ms` comes to: the user's
/// answer, a refusal once the wait is over, or `None` to look again.
pub fn access_answer(answer: Option<bool>, waited_ms: u64) -> (r: Option<bool>)
    ensures
        r == if waited_ms >= ACCESS_WAIT_MS {
            Some(false)
        } else {
            answer
        },
        waited_ms < 30 * 1000 ==> r == answer,
        waited_ms >= 30 * 1000 ==> r == Some(false),
{
    if waited_ms >= ACCESS_WAIT_MS {
        Some(false)
    } else {
        answer
    }
}

/// Whole seconds of `us` microseconds, towards zero.
pub open spec fn whole_secs(us: int) -> int {
    if us >= 0 {
        us / 1_000_000
    } else {
        -((-us) / 1_000_000)
    }
}

/// `us` microseconds in seconds, to the nearest; halves away from zero.
pub open spec fn rounded_secs(us: int) -> int {
    if us >= 0 {
        (us + 500_000) / 1_000_000
    } else {
        -((500_000 - us) / 1_000_000)
    }
}

fn to_whole_secs(us: i64) -> (r: i64)
    ensures
        r == whole_secs(us as int),
{
    if us >= 0 {
        us / 1_000_000
    } else {
        let flipped: u64 = (-(us as i128)) as u64;
        -((flipped / 1_000_000) as i64)
    }
}

fn secs_between(from_us: i64, to_us: i64) -> (r: i64)
    ensures
        r == rounded_secs(to_us - from_us),
{
    if to_us >= from_us {
        let apart: u128 = (to_us as i128 - from_us as i128) as u128;
        ((apart + 500_000) / 1_000_000) as i64
    } else {
        let apart: u128 = (from_us as i128 - to_us as i128) as u128;
        -(((apart + 500_000) / 1_000_000) as i64)
    }
}

/// Whether a name or a title holds nothing but white space.
pub open spec fn blank(s: Seq<char>) -> bool {
    trim_spec(s).len() == 0
}

/// The names that are not blank of the participants who called the meeting, or of the
/// others, in the calendar's order.
pub open spec fn names_among(ps: Seq<Participant>, organisers: bool) -> Seq<Seq<char>>
    decreases ps.len(),
{
    if ps.len() == 0 {
        Seq::empty()
    } else {
        let earlier = names_among(ps.drop_last(), organisers);
        match ps.last().name {
            Some(name) if !blank(name@) && ps.last().is_organiser == organisers => earlier.push(
                name@,
            ),
            _ => earlier,
        }
    }
}

/// The names of the participants that have one that is not blank, the organiser first.
pub open spec fn names_of(ps: Seq<Participant>) -> Seq<Seq<char>> {
    names_among(ps, true) + names_among(ps, false)
}

/// Whether an event is under way at `now`.
pub open spec fn in_progress(e: CalendarEvent, now_us: i64) -> bool {
    e.start_us <= now_us <= e.end_us
}

/// How well an event fits a recording: being under way counts most, then having
/// more than one attendee.
pub open spec fn event_score(e: CalendarEvent, now_us: i64) -> int {
    (if in_progress(e, now_us) {
        2int
    } else {
        0int
    }) + (if names_of(e.participants@).len() > 1 {
        1int
    } else {
        0int
    })
}

/// Whether an event can name a recording: it is not an all-day banner, and has a
/// title or an attendee.
pub open spec fn nameable(e: CalendarEvent) -> bool {
    !e.all_day && (!blank(e.title@) || names_of(e.participants@).len() > 0)
}

/// The first of the best events among the first `n`.
pub open spec fn best_event(events: Seq<CalendarEvent>, now_us: i64, n: int) -> Option<int>
    decreases n,
{
    if n <= 0 {
        None
    } else {
        let best = best_event(events, now_us, n - 1);
        let e = events[n - 1];
        if !nameable(e) {
            best
        } else {
            match best {
                Some(b) if event_score(e, now_us) <= event_score(events[b], now_us) => best,
                _ => Some(n - 1),
            }
        }
    }
}

/// Whether `c` is what the calendar knows of `e`.
pub open spec fn is_context_of(c: CalendarContext, e: CalendarEvent) -> bool {
    &&& match c.title {
        Some(t) => !blank(e.title@) && t@ == e.title@,
        None => blank(e.title@),
    }
    &&& crate::text::views(c.attendees@) == names_of(e.participants@)
    &&& c.start_epoch == Some(whole_secs(e.start_us as int) as i64)
    &&& c.end_epoch == Some(whole_secs(e.end_us as int) as i64)
}

fn is_blank(s: &str) -> (r: bool)
    ensures
        r == blank(s@),
{
    trim(s).is_empty()
}

fn push_names(out: &mut Vec<String>, ps: &Vec<Participant>, organisers: bool)
    ensures
        crate::text::views(final(out)@) == crate::text::views(old(out)@) + names_among(
            ps@,
            organisers,
        ),
{
    let ghost first = crate::text::views(out@);
    let mut i: usize = 0;
    assert(first + names_among(ps@.take(0), organisers) == first);
    while i < ps.len()
        invariant
            i <= ps@.len(),
            crate::text::views(out@) == first + names_among(ps@.take(i as int), organisers),
        decreases ps@.len() - i,
    {
        assert(ps@.take(i + 1).drop_last() == ps@.take(i as int));
        let ghost before = crate::text::views(out@);
        let ghost seen = names_among(ps@.take(i as int), organisers);
        if let Some(name) = &ps[i].name {
            if !is_blank(name.as_str()) && ps[i].is_organiser == organisers {
                out.push(name.clone());
                assert(crate::text::views(out@) == before.push(name@));
                assert(first + seen.push(name@) == (first + seen).push(name@));
            }
        }
        i += 1;
    }
    assert(ps@.take(i as int) == ps@);
}

fn attendee_names(ps: &Vec<Participant>) -> (r: Vec<String>)
    ensures
        crate::text::views(r@) == names_of(ps@),
{
    let mut out: Vec<String> = Vec::new();
    assert(crate::text::views(out@) == Seq::<Seq<char>>::empty());
    push_names(&mut out, ps, true);
    assert(crate::text::views(out@) == names_among(ps@, true));
    push_names(&mut out, ps, false);
    out
}

fn context_of(e: &CalendarEvent) -> (r: CalendarContext)
    ensures
        is_context_of(r, *e),
{
    let title = if is_blank(e.title.as_str()) {
        None
    } else {
        Some(e.title.clone())
    };
    CalendarContext {
        title,
        attendees: attendee_names(&e.participants),
        start_epoch: Some(to_whole_secs(e.start_us)),
        end_epoch: Some(to_whole_secs(e.end_us)),
    }
}

fn score_of(e: &CalendarEvent, attendees: usize, now_us: i64) -> (r: u8)
    requires
        attendees == names_of(e.participants@).len(),
    ensures
        r == event_score(*e, now_us),
{
    let under_way = e.start_us <= now_us && e.end_us >= now_us;
    match (under_way, attendees > 1) {
        (true, true) => 3,
        (true, false) => 2,
        (false, true) => 1,
        (false, false) => 0,
    }
}

/// The event that a recording started at `now_us` is named after: nothing
/// without access, and nothing when no event fits.
pub fn current_event(access: bool, now_us: i64, events: &Vec<CalendarEvent>) -> (r: Option<
    CalendarContext,
>)
    ensures
        match r {
            Some(c) => access && best_event(events@, now_us, events@.len() as int) is Some
                && is_context_of(
                c,
                events@[best_event(events@, now_us, events@.len() as int)->0],
            ),
            None => !access || best_event(events@, now_us, events@.len() as int) is None,
        },
{
    if !access {
        return None;
    }
    let mut best: Option<(u8, CalendarContext)> = None;
    let mut i: usize = 0;
    while i < events.len()
        invariant
            i <= events@.len(),
            match best_event(events@, now_us, i as int) {
                Some(b) => {
                    &&& 0 <= b < i
                    &&& best matches Some(found)
                    &&& found.0 == event_score(events@[b], now_us)
                    &&& is_context_of(found.1, events@[b])
                },
                None => best is None,
            },
        decreases events@.len() - i,
    {
        let e = &events[i];
        if !e.all_day {
            let ctx = context_of(e);
            assert(crate::text::views(ctx.attendees@).len() == ctx.attendees@.len());
            let score: u8 = score_of(e, ctx.attendees.len(), now_us);
            if !ctx.is_empty(Platform::MacOs) {
                let better = match &best {
                    Some(b) => score > b.0,
                    None => true,
                };
                if better {
                    best = Some((score, ctx));
                }
            }
        }
        i += 1;
    }
    match best {
        Some((_, ctx)) => Some(ctx),
        None => None,
    }
}

/// The event chosen fits at least as well as every other one, and better than
/// those before it; there is none only when no event can name a recording.
pub proof fn law_best_event_is_best(events: Seq<CalendarEvent>, now_us: i64, n: int)
    requires
        0 <= n <= events.len(),
    ensures
        match best_event(events, now_us, n) {
            Some(b) => {
                &&& 0 <= b < n
                &&& nameable(events[b])
                &&& forall|j: int|
                    0 <= j < n && nameable(#[trigger] events[j]) ==> event_score(events[j], now_us)
                        <= event_score(events[b], now_us)
                &&& forall|j: int|
                    0 <= j < b && nameable(#[trigger] events[j]) ==> event_score(events[j], now_us)
                        < event_score(events[b], now_us)
            },
            None => forall|j: int| 0 <= j < n ==> !nameable(#[trigger] events[j]),
        },
    decreases n,
{
    if n > 0 {
        law_best_event_is_best(events, now_us, n - 1);
    }
}

/// Whether a participant called the meeting and goes by `name`.
pub open spec fn organises(p: Participant, name: Seq<char>) -> bool {
    p.is_organiser && (p.name matches Some(n) && !blank(n@) && n@ == name)
}

proof fn lemma_organisers_are_named(ps: Seq<Participant>, i: int) -> (j: int)
    requires
        0 <= i < names_among(ps, true).len(),
    ensures
        0 <= j < ps.len(),
        organises(ps[j], names_among(ps, true)[i]),
    decreases ps.len(),
{
    let earlier = ps.drop_last();
    if i < names_among(earlier, true).len() {
        let j = lemma_organisers_are_named(earlier, i);
        assert(earlier[j] == ps[j]);
        j
    } else {
        ps.len() - 1
    }
}

proof fn lemma_organiser_is_among(ps: Seq<Participant>, k: int, name: Seq<char>)
    requires
        0 <= k < ps.len(),
        organises(ps[k], name),
    ensures
        names_among(ps, true).len() > 0,
    decreases ps.len(),
{
    if k < ps.len() - 1 {
        assert(ps.drop_last()[k] == ps[k]);
        lemma_organiser_is_among(ps.drop_last(), k, name);
    }
}

/// The organiser comes first: where one is known by name, the first attendee is one.
pub proof fn law_organiser_comes_first(ps: Seq<Participant>, k: int, name: Seq<char>)
    requires
        0 <= k < ps.len(),
        organises(ps[k], name),
    ensures
        names_of(ps).len() > 0,
        exists|j: int| 0 <= j < ps.len() && organises(#[trigger] ps[j], names_of(ps)[0]),
{
    lemma_organiser_is_among(ps, k, name);
    let j = lemma_organisers_are_named(ps, 0);
    assert(organises(ps[j], names_of(ps)[0]));
}

/// Where no organiser is known, the attendees stand as the calendar has them.
pub proof fn law_unknown_organiser_changes_nothing(ps: Seq<Participant>)
    requires
        forall|k: int| 0 <= k < ps.len() ==> !(#[trigger] ps[k]).is_organiser,
    ensures
        names_of(ps) == names_among(ps, false),
{
    if names_among(ps, true).len() > 0 {
        let j = lemma_organisers_are_named(ps, 0);
        assert(!ps[j].is_organiser);
    }
}

/// Whether the user has declined the invitation.
pub open spec fn declined(e: CalendarEvent) -> bool {
    exists|k: int|
        0 <= k < e.participants@.len() && (#[trigger] e.participants@[k]).is_current_user
            && e.participants@[k].declined
}

/// Whether the user has declined the invitation: the participant flagged as the
/// user is looked at.
pub fn is_declined(e: &CalendarEvent) -> (r: bool)
    ensures
        r == declined(*e),
{
    let mut k: usize = 0;
    while k < e.participants.len()
        invariant
            k <= e.participants@.len(),
            forall|j: int|
                0 <= j < k ==> !((#[trigger] e.participants@[j]).is_current_user
                    && e.participants@[j].declined),
        decreases e.participants@.len() - k,
    {
        let p = &e.participants[k];
        if p.is_current_user && p.declined {
            return true;
        }
        k += 1;
    }
    false
}

/// Which events are looked at for the one that comes next.
#[derive(Clone, Copy, Debug, PartialEq, Eq, Structural)]
pub enum Ahead {
    /// Those under way and those to come.
    OnOrToCome,
    /// Those that have not started, to the nearest second.
    ToCome,
}

impl Ahead {
    /// Whether an event is looked at.
    pub open spec fn takes(self, e: CalendarEvent, now_us: i64) -> bool {
        match self {
            Ahead::OnOrToCome => e.end_us >= now_us,
            Ahead::ToCome => e.end_us >= now_us && rounded_secs(e.start_us - now_us) > 0,
        }
    }
}

/// Whether an event is ahead, and worth announcing: not an all-day banner, not
/// declined, with a title, not over, and with a start that has a local time of day.
pub open spec fn still_to_come(
    e: CalendarEvent,
    now_us: i64,
    clock: Option<String>,
    ahead: Ahead,
) -> bool {
    &&& !e.all_day
    &&& !declined(e)
    &&& !blank(e.title@)
    &&& ahead.takes(e, now_us)
    &&& clock is Some
}

/// The event among the first `n` that starts soonest, the first of several.
pub open spec fn soonest(
    events: Seq<CalendarEvent>,
    now_us: i64,
    clocks: Seq<Option<String>>,
    ahead: Ahead,
    n: int,
) -> Option<int>
    decreases n,
{
    if n <= 0 {
        None
    } else {
        let best = soonest(events, now_us, clocks, ahead, n - 1);
        let e = events[n - 1];
        if !still_to_come(e, now_us, clocks[n - 1], ahead) {
            best
        } else {
            match best {
                Some(b) if events[b].start_us <= e.start_us => best,
                _ => Some(n - 1),
            }
        }
    }
}

/// Whether `r` is the state of the day for the events ahead, given the local start
/// times `clocks`.
pub open spec fn is_next_meeting(
    r: NextMeeting,
    access: bool,
    now_us: i64,
    events: Seq<CalendarEvent>,
    clocks: Seq<Option<String>>,
    ahead: Ahead,
) -> bool {
    if !access {
        r is Unavailable
    } else {
        match soonest(events, now_us, clocks, ahead, events.len() as int) {
            None => r is Clear,
            Some(b) => {
                &&& r matches NextMeeting::Upcoming(e)
                &&& e.title@ == trim_spec(events[b].title@)
                &&& e.starts_in_secs == rounded_secs(events[b].start_us - now_us)
                &&& e.start_hm@ == clocks[b]->0@
            },
        }
    }
}

/// The next event ahead today, given the local start time of each one.
pub fn next_meeting_at(
    access: bool,
    now_us: i64,
    events: &Vec<CalendarEvent>,
    clocks: &Vec<Option<String>>,
    ahead: Ahead,
) -> (r: NextMeeting)
    requires
        clocks@.len() == events@.len(),
    ensures
        is_next_meeting(r, access, now_us, events@, clocks@, ahead),
{
    if !access {
        return NextMeeting::Unavailable;
    }
    let mut best: Option<usize> = None;
    let mut i: usize = 0;
    while i < events.len()
        invariant
            i <= events@.len(),
            clocks@.len() == events@.len(),
            match soonest(events@, now_us, clocks@, ahead, i as int) {
                Some(b) => 0 <= b < i && best == Some(b as usize) && clocks@[b] is Some,
                None => best is None,
            },
        decreases events@.len() - i,
    {
        let e = &events[i];
        let ours = match ahead {
            Ahead::OnOrToCome => true,
            Ahead::ToCome => secs_between(now_us, e.start_us) > 0,
        };
        if ours && !e.all_day && !is_declined(e) && !is_blank(e.title.as_str()) && e.end_us
            >= now_us && clocks[i].is_some() {
            let sooner = match best {
                Some(b) => e.start_us < events[b].start_us,
                None => true,
            };
            if sooner {
                best = Some(i);
            }
        }
        i += 1;
    }
    match best {
        None => NextMeeting::Clear,
        Some(b) => {
            let e = &events[b];
            match &clocks[b] {
                Some(start_hm) => NextMeeting::Upcoming(
                    UpcomingEvent {
                        title: trim(e.title.as_str()).to_owned(),
                        starts_in_secs: secs_between(now_us, e.start_us),
                        start_hm: start_hm.clone(),
                    },
                ),
                None => NextMeeting::Clear,
            }
        },
    }
}

/// Whether `clocks` are local start times of the events: one for each start that
/// has a local time of day.
pub open spec fn are_start_clocks(events: Seq<CalendarEvent>, clocks: Seq<Option<String>>) -> bool {
    &&& clocks.len() == events.len()
    &&& forall|k: int|
        0 <= k < events.len() ==> {
            &&& (#[trigger] clocks[k]) is Some <==> holds_epoch(
                whole_secs(events[k].start_us as int),
            )
            &&& clocks[k] matches Some(s) ==> exists|c: LocalClock|
                c.valid() && s@ == #[trigger] clock24(c.hour as nat, c.minute as nat)
        }
}

/// The local start times of the events, in the time zone of the machine.
pub fn start_clocks(events: &Vec<CalendarEvent>) -> (r: Vec<Option<String>>)
    ensures
        are_start_clocks(events@, r@),
{
    let mut clocks: Vec<Option<String>> = Vec::new();
    while clocks.len() < events.len()
        invariant
            clocks@.len() <= events@.len(),
            are_start_clocks(events@.take(clocks@.len() as int), clocks@),
        decreases events@.len() - clocks@.len(),
    {
        let i: usize = clocks.len();
        clocks.push(local_hm(to_whole_secs(events[i].start_us)));
        assert forall|k: int| 0 <= k < clocks@.len() implies {
            &&& (#[trigger] clocks@[k]) is Some <==> holds_epoch(
                whole_secs(events@.take(i + 1)[k].start_us as int),
            )
            &&& clocks@[k] matches Some(s) ==> exists|c: LocalClock|
                c.valid() && s@ == #[trigger] clock24(c.hour as nat, c.minute as nat)
        } by {
            assert(events@.take(i + 1)[k] == events@[k]);
            if k < i {
                assert(events@.take(i as int)[k] == events@[k]);
            }
        }
    }
    assert(events@.take(clocks@.len() as int) == events@);
    clocks
}

/// The next event still to come today or under way, whichever starts soonest.
/// Without access the day is unknown, and nobody is asked for it.
pub fn next_meeting(access: bool, now_us: i64, events: &Vec<CalendarEvent>) -> (r: NextMeeting)
    ensures
        exists|clocks: Seq<Option<String>>|
            are_start_clocks(events@, clocks) && #[trigger] is_next_meeting(
                r,
                access,
                now_us,
                events@,
                clocks,
                Ahead::OnOrToCome,
            ),
{
    let clocks = start_clocks(events);
    next_meeting_at(access, now_us, events, &clocks, Ahead::OnOrToCome)
}

/// The meeting announced is ahead, and none that is starts before it; the day is clear
/// only when none is.
pub proof fn law_soonest_is_soonest(
    events: Seq<CalendarEvent>,
    now_us: i64,
    clocks: Seq<Option<String>>,
    ahead: Ahead,
    n: int,
)
    requires
        0 <= n <= events.len(),
        clocks.len() == events.len(),
    ensures
        match soonest(events, now_us, clocks, ahead, n) {
            Some(b) => {
                &&& 0 <= b < n
                &&& still_to_come(events[b], now_us, clocks[b], ahead)
                &&& forall|j: int|
                    0 <= j < n && still_to_come(#[trigger] events[j], now_us, clocks[j], ahead)
                        ==> events[b].start_us <= events[j].start_us
                &&& forall|j: int|
                    0 <= j < b && still_to_come(#[trigger] events[j], now_us, clocks[j], ahead)
                        ==> events[b].start_us < events[j].start_us
            },
            None => forall|j: int|
                0 <= j < n ==> !still_to_come(#[trigger] events[j], now_us, clocks[j], ahead),
        },
    decreases n,
{
    if n > 0 {
        law_soonest_is_soonest(events, now_us, clocks, ahead, n - 1);
    }
}

/// Without calendar access the day is never called clear.
pub proof fn law_unknown_day_is_not_clear(
    r: NextMeeting,
    access: bool,
    now_us: i64,
    events: Seq<CalendarEvent>,
    clocks: Seq<Option<String>>,
    ahead: Ahead,
)
    requires
        is_next_meeting(r, access, now_us, events, clocks, ahead),
    ensures
        r is Clear ==> access,
        r is Unavailable <==> !access,
{
}

/// What was last logged of the number of events that the calendar returned.
pub struct EventCountLog {
    pub last: Option<usize>,
}

/// Notes how many events the calendar returned, and says whether to log it: only
/// when the number has moved.
pub fn log_event_count(log: &mut EventCountLog, count: usize) -> (r: bool)
    ensures
        r == (old(log).last != Some(count)),
        final(log).last == Some(count),
{
    let same = match log.last {
        Some(last) => last == count,
        None => false,
    };
    log.last = Some(count);
    !same
}

/// The title and the time range on the card for a calendar match; neither
/// without a match. The range needs both bounds.
pub fn calendar_card_fields(ctx: Option<&CalendarContext>) -> (r: (Option<String>, Option<String>))
    ensures
        match ctx {
            None => r.0 is None && r.1 is None,
            Some(c) => {
                &&& r.0 == c.title
                &&& r.1 is Some <==> c.start_epoch is Some && c.end_epoch is Some && holds_epoch(
                    c.start_epoch->0 as int,
                ) && holds_epoch(c.end_epoch->0 as int)
                &&& r.1 matches Some(s) ==> exists|a: LocalClock, b: LocalClock|
                    a.valid() && b.valid() && s@ == #[trigger] time_range(a, b)
            },
        },
{
    match ctx {
        None => (None, None),
        Some(c) => {
            let range = match (c.start_epoch, c.end_epoch) {
                (Some(s), Some(e)) => format_time_range(s, e),
                _ => None,
            };
            (c.title.clone(), range)
        },
    }
}

/// Whether `s` holds nothing but white space.
pub open spec fn only_white(s: Seq<char>) -> bool {
    forall|i: int| 0 <= i < s.len() ==> white_space(#[trigger] s[i])
}

proof fn lemma_blank(s: Seq<char>)
    ensures
        blank(s) == only_white(s),
{
    let (a, b) = law_trimming_takes_white_space(s);
    let t = trim_spec(s);
    if t.len() > 0 {
        assert(s[a.len() as int] == t[0]);
    } else {
        assert forall|i: int| 0 <= i < s.len() implies white_space(#[trigger] s[i]) by {
            if i < a.len() {
                assert(s[i] == a[i]);
            } else {
                assert(s[i] == b[i - a.len()]);
            }
        }
    }
}

/// Whether a participant has a name to go by.
pub open spec fn goes_by_a_name(p: Participant) -> bool {
    p.name matches Some(n) && !only_white(n@)
}

/// Whether an event is on at `now`: it has begun, and is not over.
pub open spec fn is_on(e: CalendarEvent, now_us: i64) -> bool {
    e.start_us <= now_us && now_us <= e.end_us
}

/// Whether somebody takes part in an event by name.
pub open spec fn has_somebody(e: CalendarEvent) -> bool {
    exists|i: int| 0 <= i < e.participants@.len() && goes_by_a_name(#[trigger] e.participants@[i])
}

/// Whether more than one takes part in an event by name.
pub open spec fn has_company(e: CalendarEvent) -> bool {
    exists|i: int, j: int|
        0 <= i < j < e.participants@.len() && goes_by_a_name(#[trigger] e.participants@[i])
            && goes_by_a_name(#[trigger] e.participants@[j])
}

/// Whether an event can name a recording: it is no all-day banner, and has a title or
/// somebody who takes part.
pub open spec fn can_name_a_recording(e: CalendarEvent) -> bool {
    !e.all_day && (!only_white(e.title@) || has_somebody(e))
}

proof fn lemma_named(ps: Seq<Participant>)
    ensures
        names_of(ps).len() > 0 <==> exists|i: int|
            0 <= i < ps.len() && goes_by_a_name(#[trigger] ps[i]),
        names_of(ps).len() > 1 <==> exists|i: int, j: int|
            0 <= i < j < ps.len() && goes_by_a_name(#[trigger] ps[i]) && goes_by_a_name(
                #[trigger] ps[j],
            ),
    decreases ps.len(),
{
    if ps.len() > 0 {
        let earlier = ps.drop_last();
        let last = ps.len() - 1;
        lemma_named(earlier);
        if let Some(n) = ps.last().name {
            lemma_blank(n@);
        }
        assert(ps.last() == ps[last]);
        assert(names_of(ps).len() == names_of(earlier).len() + if goes_by_a_name(ps[last]) {
            1int
        } else {
            0int
        });
        assert forall|i: int| 0 <= i < earlier.len() implies #[trigger] earlier[i] == ps[i] by {}
        if names_of(earlier).len() > 0 {
            let i = choose|i: int|
                0 <= i < earlier.len() && goes_by_a_name(#[trigger] earlier[i]);
            assert(goes_by_a_name(ps[i]));
        }
        if names_of(earlier).len() > 1 {
            let (i, j) = choose|i: int, j: int|
                0 <= i < j < earlier.len() && goes_by_a_name(#[trigger] earlier[i])
                    && goes_by_a_name(#[trigger] earlier[j]);
            assert(goes_by_a_name(ps[i]) && goes_by_a_name(ps[j]));
        }
        if exists|i: int, j: int|
            0 <= i < j < ps.len() && goes_by_a_name(#[trigger] ps[i]) && goes_by_a_name(
                #[trigger] ps[j],
            ) {
            let (i, j) = choose|i: int, j: int|
                0 <= i < j < ps.len() && goes_by_a_name(#[trigger] ps[i]) && goes_by_a_name(
                    #[trigger] ps[j],
                );
            assert(goes_by_a_name(earlier[i]));
            if j < last {
                assert(goes_by_a_name(earlier[j]));
            }
        }
        if exists|i: int| 0 <= i < ps.len() && goes_by_a_name(#[trigger] ps[i]) {
            let i = choose|i: int| 0 <= i < ps.len() && goes_by_a_name(#[trigger] ps[i]);
            if i < last {
                assert(goes_by_a_name(earlier[i]));
            }
        }
    }
}

proof fn lemma_scores(e: CalendarEvent, now_us: i64)
    ensures
        nameable(e) == can_name_a_recording(e),
        event_score(e, now_us) == (if is_on(e, now_us) {
            2int
        } else {
            0int
        }) + (if has_company(e) {
            1int
        } else {
            0int
        }),
{
    lemma_blank(e.title@);
    lemma_named(e.participants@);
}

/// A recording goes by the meeting that is on: an event that is over or has not begun is
/// never taken over one that is on, nor one with nobody to meet over one with company
/// that is as much on; and of equals the first is taken. Only where no event can name a
/// recording is there none.
pub proof fn law_recording_goes_by_the_meeting_that_is_on(
    events: Seq<CalendarEvent>,
    now_us: i64,
    j: int,
)
    requires
        0 <= j < events.len(),
        can_name_a_recording(events[j]),
    ensures
        ({
            let best = best_event(events, now_us, events.len() as int);
            &&& best is Some
            &&& 0 <= best->0 < events.len()
            &&& can_name_a_recording(events[best->0])
            &&& is_on(events[j], now_us) ==> is_on(events[best->0], now_us)
            &&& is_on(events[j], now_us) == is_on(events[best->0], now_us) && has_company(events[j])
                ==> has_company(events[best->0])
            &&& is_on(events[j], now_us) == is_on(events[best->0], now_us) && has_company(events[j])
                == has_company(events[best->0]) ==> best->0 <= j
        }),
{
    law_best_event_is_best(events, now_us, events.len() as int);
    lemma_scores(events[j], now_us);
    if let Some(b) = best_event(events, now_us, events.len() as int) {
        lemma_scores(events[b], now_us);
    }
}

/// Nothing names a recording where no event can.
pub proof fn law_no_event_no_name(events: Seq<CalendarEvent>, now_us: i64)
    requires
        forall|j: int| 0 <= j < events.len() ==> !can_name_a_recording(#[trigger] events[j]),
    ensures
        best_event(events, now_us, events.len() as int) is None,
{
    law_best_event_is_best(events, now_us, events.len() as int);
    if let Some(b) = best_event(events, now_us, events.len() as int) {
        lemma_scores(events[b], now_us);
        assert(!can_name_a_recording(events[b]));
    }
}

proof fn lemma_names_among(ps: Seq<Participant>, organisers: bool)
    ensures
        names_among(ps, organisers) == ps.filter(
            |p: Participant| goes_by_a_name(p) && p.is_organiser == organisers,
        ).map_values(|p: Participant| p.name->0@),
    decreases ps.len(),
{
    reveal(Seq::filter);
    let keep = |p: Participant| goes_by_a_name(p) && p.is_organiser == organisers;
    let name = |p: Participant| p.name->0@;
    if ps.len() > 0 {
        lemma_names_among(ps.drop_last(), organisers);
        let q = ps.last();
        let before = ps.drop_last().filter(keep);
        if let Some(n) = q.name {
            lemma_blank(n@);
        }
        if keep(q) {
            assert(before.push(q).map_values(name) == before.map_values(name).push(name(q)));
        }
    } else {
        assert(ps.filter(keep).map_values(name) == Seq::<Seq<char>>::empty());
    }
}

/// What is known of an event is its own: the title as it stands unless it is blank, the
/// names of those who take part, organisers before the others and each in the calendar's
/// order, and both ends in whole seconds.
pub proof fn law_context_tells_of_its_event(c: CalendarContext, e: CalendarEvent)
    requires
        is_context_of(c, e),
    ensures
        c.title is Some <==> !only_white(e.title@),
        c.title matches Some(t) ==> t@ == e.title@,
        crate::text::views(c.attendees@) == e.participants@.filter(
            |p: Participant| goes_by_a_name(p) && p.is_organiser == true,
        ).map_values(|p: Participant| p.name->0@) + e.participants@.filter(
            |p: Participant| goes_by_a_name(p) && p.is_organiser == false,
        ).map_values(|p: Participant| p.name->0@),
        c.start_epoch matches Some(at) && -1_000_000 < e.start_us - at * 1_000_000 < 1_000_000 && (
        e.start_us >= 0 ==> at * 1_000_000 <= e.start_us) && (e.start_us <= 0 ==> at * 1_000_000
            >= e.start_us),
        c.end_epoch matches Some(at) && -1_000_000 < e.end_us - at * 1_000_000 < 1_000_000 && (
        e.end_us >= 0 ==> at * 1_000_000 <= e.end_us) && (e.end_us <= 0 ==> at * 1_000_000
            >= e.end_us),
{
    lemma_blank(e.title@);
    lemma_names_among(e.participants@, true);
    lemma_names_among(e.participants@, false);
}

/// Seconds are rounded to the nearest, halves away from zero.
pub proof fn law_seconds_are_the_nearest(us: int)
    ensures
        us >= 0 ==> rounded_secs(us) * 1_000_000 - 500_000 <= us < rounded_secs(us) * 1_000_000
            + 500_000,
        us <= 0 ==> rounded_secs(us) * 1_000_000 - 500_000 < us <= rounded_secs(us) * 1_000_000
            + 500_000,
{
}

/// Whether an event can be announced: no all-day banner, not one that the user declined,
/// with a title, not over, and with a start that has a time of day; where only what has
/// not begun counts, at least half a second before it begins.
pub open spec fn can_be_announced(
    e: CalendarEvent,
    now_us: i64,
    clock: Option<String>,
    ahead: Ahead,
) -> bool {
    &&& !e.all_day
    &&& forall|k: int|
        0 <= k < e.participants@.len() ==> !((#[trigger] e.participants@[k]).is_current_user
            && e.participants@[k].declined)
    &&& !only_white(e.title@)
    &&& now_us <= e.end_us
    &&& ahead == Ahead::ToCome ==> e.start_us - now_us >= 500_000
    &&& clock is Some
}

proof fn lemma_announced(e: CalendarEvent, now_us: i64, clock: Option<String>, ahead: Ahead)
    ensures
        still_to_come(e, now_us, clock, ahead) == can_be_announced(e, now_us, clock, ahead),
{
    lemma_blank(e.title@);
}

/// What comes next is what starts first: of the events that can be announced none starts
/// before it, and of those that start with it, it is the first. It is told by its title,
/// without the white space around it, and by how long it is to its start. The day is
/// clear where no event can be announced, and unknown without access, whatever is on.
pub proof fn law_what_comes_next_starts_first(
    r: NextMeeting,
    access: bool,
    now_us: i64,
    events: Seq<CalendarEvent>,
    clocks: Seq<Option<String>>,
    ahead: Ahead,
)
    requires
        clocks.len() == events.len(),
        is_next_meeting(r, access, now_us, events, clocks, ahead),
    ensures
        r is Unavailable <==> !access,
        r is Clear <==> access && forall|j: int|
            0 <= j < events.len() ==> !can_be_announced(
                #[trigger] events[j],
                now_us,
                clocks[j],
                ahead,
            ),
        r matches NextMeeting::Upcoming(u) ==> exists|b: int|
            {
                &&& 0 <= b < events.len()
                &&& can_be_announced(#[trigger] events[b], now_us, clocks[b], ahead)
                &&& forall|j: int|
                    0 <= j < events.len() && can_be_announced(
                        #[trigger] events[j],
                        now_us,
                        clocks[j],
                        ahead,
                    ) ==> events[b].start_us < events[j].start_us || events[b].start_us
                        == events[j].start_us && b <= j
                &&& u.title@ == trim_spec(events[b].title@)
                &&& u.start_hm@ == clocks[b]->0@
                &&& -500_000 <= events[b].start_us - now_us - u.starts_in_secs * 1_000_000
                    <= 500_000
            },
{
    assert forall|j: int| 0 <= j < events.len() implies still_to_come(
        #[trigger] events[j],
        now_us,
        clocks[j],
        ahead,
    ) == can_be_announced(events[j], now_us, clocks[j], ahead) by {
        lemma_announced(events[j], now_us, clocks[j], ahead);
    }
    law_soonest_is_soonest(events, now_us, clocks, ahead, events.len() as int);
    if access {
        match soonest(events, now_us, clocks, ahead, events.len() as int) {
            Some(b) => {
                assert(can_be_announced(events[b], now_us, clocks[b], ahead));
                law_seconds_are_the_nearest(events[b].start_us - now_us);
            },
            None => {},
        }
    }
}

} // verus!
