//! A heads-up card shortly before the next calendar event.

use vstd::prelude::*;
use vstd::string::*;

use crate::calendar::{
    are_start_clocks, is_next_meeting, law_soonest_is_soonest, next_meeting_at, rounded_secs,
    start_clocks, still_to_come, Ahead, CalendarEvent, NextMeeting, UpcomingEvent,
};
use crate::clock::{civil_now, iso_date, CivilTime};
use crate::text::{same_text, text_view, trim_spec};
use crate::tray::MEETING_TICK_SECS;

verus! {

/// The reminder never waits longer than one tray tick, in seconds, so that the
/// label refresh on the same thread is never stalled further than that.
pub const MAX_HOLD_SECS: i64 = 30;

/// A longer lead, in minutes, is a typing error and no plan.
pub const MAX_LEAD_MINUTES: u32 = 120;

/// How long to wait before the card is shown, in seconds.
pub open spec fn hold(starts_in_secs: int, lead_secs: int) -> Option<int> {
    if starts_in_secs <= 0 || starts_in_secs - lead_secs > MAX_HOLD_SECS {
        None
    } else if starts_in_secs <= lead_secs {
        Some(0int)
    } else {
        Some(starts_in_secs - lead_secs)
    }
}

/// Seconds to hold before showing the card, or `None` for "not now". A meeting
/// seen a little before the lead is held for the difference; one already inside
/// the lead is announced at once, and one already started is not.
pub fn fire_delay(starts_in_secs: i64, lead_secs: i64) -> (r: Option<i64>)
    requires
        starts_in_secs > 0 ==> starts_in_secs - lead_secs <= i64::MAX,
    ensures
        match r {
            Some(d) => hold(starts_in_secs as int, lead_secs as int) == Some(d as int),
            None => hold(starts_in_secs as int, lead_secs as int) is None,
        },
{
    if starts_in_secs <= 0 {
        return None;
    }
    let over: i64 = starts_in_secs - lead_secs;
    if over <= 0 {
        Some(0)
    } else if over <= MAX_HOLD_SECS {
        Some(over)
    } else {
        None
    }
}

/// What one occurrence of an event is known by: title, date and start. A meeting
/// that is moved earns a new reminder, and so does a daily one each day.
pub open spec fn occurrence(title: Seq<char>, today: CivilTime, start_hm: Seq<char>) -> Seq<char> {
    title + "@"@ + iso_date(today) + " "@ + start_hm
}

/// The card to show: hold for so long, in seconds, and announce the title at so
/// many minutes.
pub struct Reminder {
    pub hold_secs: u64,
    pub title: String,
    pub minutes: u32,
}

/// Which occurrence was announced last.
pub struct ReminderLog {
    pub last_fired: Option<String>,
}

/// The lead that is kept, in minutes.
pub open spec fn lead_minutes(minutes: u32) -> u32 {
    if minutes < MAX_LEAD_MINUTES {
        minutes
    } else {
        MAX_LEAD_MINUTES
    }
}

/// How long to hold the card for the next meeting, where there is one to show.
pub open spec fn due(minutes: u32, next: NextMeeting) -> Option<int> {
    match next {
        NextMeeting::Upcoming(event) => if minutes == 0 {
            None
        } else {
            hold(event.starts_in_secs as int, lead_minutes(minutes) * 60)
        },
        _ => None,
    }
}

/// Whether a reminder is shown: one is due for an occurrence other than the one
/// announced last.
pub open spec fn reminds(
    last: Option<Seq<char>>,
    minutes: u32,
    next: NextMeeting,
    today: CivilTime,
) -> bool {
    due(minutes, next) is Some && (next matches NextMeeting::Upcoming(event) && last != Some(
        occurrence(event.title@, today, event.start_hm@),
    ))
}

/// The occurrence announced last, after a tick.
pub open spec fn last_after(
    last: Option<Seq<char>>,
    minutes: u32,
    next: NextMeeting,
    today: CivilTime,
) -> Option<Seq<char>> {
    match next {
        NextMeeting::Upcoming(event) => if reminds(last, minutes, next, today) {
            Some(occurrence(event.title@, today, event.start_hm@))
        } else {
            last
        },
        _ => last,
    }
}

/// Whether `r` is the reminder that a tick shows.
pub open spec fn shown(
    r: Option<Reminder>,
    last: Option<Seq<char>>,
    minutes: u32,
    next: NextMeeting,
    today: CivilTime,
) -> bool {
    match r {
        Some(card) => {
            &&& reminds(last, minutes, next, today)
            &&& due(minutes, next) == Some(card.hold_secs as int)
            &&& next matches NextMeeting::Upcoming(event) && card.title@ == event.title@
            &&& card.minutes == lead_minutes(minutes)
        },
        None => !reminds(last, minutes, next, today),
    }
}

impl ReminderLog {
    /// Nothing announced yet.
    pub fn new() -> (r: Self)
        ensures
            r.last_fired is None,
    {
        ReminderLog { last_fired: None }
    }
}

/// One tick on the given day: the reminder to show, if any.
pub fn tick_on(
    log: &mut ReminderLog,
    minutes: u32,
    next: &NextMeeting,
    today: &CivilTime,
) -> (r: Option<Reminder>)
    requires
        today.valid(),
    ensures
        shown(r, text_view(old(log).last_fired), minutes, *next, *today),
        text_view(final(log).last_fired) == last_after(
            text_view(old(log).last_fired),
            minutes,
            *next,
            *today,
        ),
{
    let minutes: u32 = if minutes < MAX_LEAD_MINUTES {
        minutes
    } else {
        MAX_LEAD_MINUTES
    };
    if minutes == 0 {
        return None;
    }
    let event = match next {
        NextMeeting::Upcoming(event) => event,
        _ => {
            return None;
        },
    };
    let hold: i64 = match fire_delay(event.starts_in_secs, minutes as i64 * 60) {
        Some(d) => d,
        None => {
            return None;
        },
    };
    let mut key = event.title.clone();
    key.append("@");
    let date = today.iso_date();
    key.append(date.as_str());
    key.append(" ");
    key.append(event.start_hm.as_str());
    assert(key@ == occurrence(event.title@, *today, event.start_hm@));
    match &log.last_fired {
        Some(last) => {
            if same_text(last.as_str(), key.as_str()) {
                return None;
            }
        },
        None => {},
    }
    log.last_fired = Some(key);
    Some(Reminder { hold_secs: hold as u64, title: event.title.clone(), minutes })
}

/// One tick on the given day, given the local start time of each event: the reminder to
/// show, if any. It is for the soonest event that has not started, whatever else is
/// under way.
pub fn tick_at(
    log: &mut ReminderLog,
    minutes: u32,
    access: bool,
    now_us: i64,
    events: &Vec<CalendarEvent>,
    clocks: &Vec<Option<String>>,
    today: &CivilTime,
) -> (r: Option<Reminder>)
    requires
        clocks@.len() == events@.len(),
        today.valid(),
    ensures
        exists|next: NextMeeting|
            #[trigger] is_next_meeting(next, access, now_us, events@, clocks@, Ahead::ToCome)
                && shown(r, text_view(old(log).last_fired), minutes, next, *today) && text_view(
                final(log).last_fired,
            ) == last_after(text_view(old(log).last_fired), minutes, next, *today),
{
    let next = next_meeting_at(access, now_us, events, clocks, Ahead::ToCome);
    tick_on(log, minutes, &next, today)
}

/// One tick now: the reminder to show, if any. The date and the local start times are
/// the machine's.
pub fn tick(
    log: &mut ReminderLog,
    minutes: u32,
    access: bool,
    now_us: i64,
    events: &Vec<CalendarEvent>,
) -> (r: Option<Reminder>)
    ensures
        exists|next: NextMeeting, clocks: Seq<Option<String>>, today: CivilTime|
            {
                &&& are_start_clocks(events@, clocks)
                &&& today.valid()
                &&& #[trigger] is_next_meeting(
                    next,
                    access,
                    now_us,
                    events@,
                    clocks,
                    Ahead::ToCome,
                )
                &&& #[trigger] shown(r, text_view(old(log).last_fired), minutes, next, today)
                &&& text_view(final(log).last_fired) == last_after(
                    text_view(old(log).last_fired),
                    minutes,
                    next,
                    today,
                )
            },
        minutes == 0 || !access ==> r is None && text_view(final(log).last_fired) == text_view(
            old(log).last_fired,
        ),
{
    let clocks = start_clocks(events);
    let today = civil_now();
    tick_at(log, minutes, access, now_us, events, &clocks, &today)
}

/// No meeting sneaks up, not even while another one is on: where an event is the next
/// to start and within reach of the lead, and was not announced yet, the tick shows the
/// card for it.
pub proof fn law_next_to_start_is_announced(
    events: Seq<CalendarEvent>,
    now_us: i64,
    clocks: Seq<Option<String>>,
    b: int,
    next: NextMeeting,
    last: Option<Seq<char>>,
    minutes: u32,
    today: CivilTime,
)
    requires
        0 <= b < events.len(),
        clocks.len() == events.len(),
        still_to_come(events[b], now_us, clocks[b], Ahead::ToCome),
        forall|j: int|
            0 <= j < events.len() && j != b && still_to_come(
                #[trigger] events[j],
                now_us,
                clocks[j],
                Ahead::ToCome,
            ) ==> events[b].start_us < events[j].start_us,
        minutes > 0,
        rounded_secs(events[b].start_us - now_us) <= lead_minutes(minutes) * 60
            + MEETING_TICK_SECS,
        last != Some(occurrence(trim_spec(events[b].title@), today, clocks[b]->0@)),
        is_next_meeting(next, true, now_us, events, clocks, Ahead::ToCome),
    ensures
        reminds(last, minutes, next, today),
        next matches NextMeeting::Upcoming(event) && event.title@ == trim_spec(events[b].title@)
            && event.starts_in_secs == rounded_secs(events[b].start_us - now_us),
{
    law_soonest_is_soonest(events, now_us, clocks, Ahead::ToCome, events.len() as int);
}

/// The card means what it says: it is shown at the configured lead exactly, or at
/// once where less time is left, never after the start, and never after more than
/// one tick of waiting.
pub proof fn law_card_lands_on_the_lead(starts_in_secs: int, lead_secs: int)
    requires
        lead_secs > 0,
    ensures
        hold(starts_in_secs, lead_secs) matches Some(d) ==> {
            &&& starts_in_secs > 0
            &&& 0 <= d <= MEETING_TICK_SECS
            &&& starts_in_secs - d == if starts_in_secs < lead_secs {
                starts_in_secs
            } else {
                lead_secs
            }
        },
        0 < starts_in_secs <= lead_secs + MEETING_TICK_SECS ==> hold(starts_in_secs, lead_secs)
            is Some,
{
}

/// Ticks come often enough: of the ticks before a meeting, one falls where the
/// card can be held up to the lead.
pub proof fn law_no_meeting_slips_between_ticks(starts_in_secs: int, lead_secs: int)
    requires
        lead_secs > 0,
        starts_in_secs > lead_secs + MEETING_TICK_SECS,
    ensures
        exists|n: int|
            n > 0 && hold(#[trigger] (starts_in_secs - n * MEETING_TICK_SECS), lead_secs) is Some,
{
    let over = starts_in_secs - lead_secs;
    let n = over / 30;
    assert(0 <= over - n * 30 < 30);
    assert(hold(starts_in_secs - n * MEETING_TICK_SECS, lead_secs) is Some);
}

/// One reminder per occurrence: a tick that sees again the occurrence announced
/// last shows nothing and changes nothing.
pub proof fn law_reminds_once(
    last: Option<Seq<char>>,
    minutes: u32,
    again: u32,
    event: UpcomingEvent,
    later: UpcomingEvent,
    today: CivilTime,
)
    requires
        reminds(last, minutes, NextMeeting::Upcoming(event), today),
        later.title@ == event.title@,
        later.start_hm@ == event.start_hm@,
    ensures
        ({
            let after = last_after(last, minutes, NextMeeting::Upcoming(event), today);
            &&& !reminds(after, again, NextMeeting::Upcoming(later), today)
            &&& last_after(after, again, NextMeeting::Upcoming(later), today) == after
        }),
{
}

/// A reminder is shown exactly where a lead is set, the meeting lies ahead within the lead
/// of two hours at most and half a minute more, and it is not the one announced last; it
/// is then the one announced last.
pub proof fn law_meetings_ahead_are_announced(
    last: Option<Seq<char>>,
    minutes: u32,
    event: UpcomingEvent,
    today: CivilTime,
)
    ensures
        ({
            let lead = if minutes < 120 {
                minutes * 60
            } else {
                7200
            };
            let key = event.title@ + "@"@ + iso_date(today) + " "@ + event.start_hm@;
            let next = NextMeeting::Upcoming(event);
            &&& reminds(last, minutes, next, today) <==> minutes > 0 && 0 < event.starts_in_secs
                <= lead + 30 && last != Some(key)
            &&& reminds(last, minutes, next, today) ==> last_after(last, minutes, next, today)
                == Some(key)
            &&& !reminds(last, minutes, next, today) ==> last_after(last, minutes, next, today)
                == last
            &&& due(minutes, next) matches Some(d) ==> d == if event.starts_in_secs <= lead {
                0
            } else {
                event.starts_in_secs - lead
            }
        }),
        !reminds(last, minutes, NextMeeting::Clear, today),
        !reminds(last, minutes, NextMeeting::Unavailable, today),
        last_after(last, minutes, NextMeeting::Clear, today) == last,
        last_after(last, minutes, NextMeeting::Unavailable, today) == last,
{
}

/// The card that is shown is held for as long as is due, and tells the meeting's title and
/// the lead in minutes.
pub proof fn law_card_tells_the_meeting(
    r: Option<Reminder>,
    last: Option<Seq<char>>,
    minutes: u32,
    event: UpcomingEvent,
    today: CivilTime,
)
    requires
        shown(r, last, minutes, NextMeeting::Upcoming(event), today),
    ensures
        r is Some <==> reminds(last, minutes, NextMeeting::Upcoming(event), today),
        r matches Some(card) ==> {
            &&& card.title@ == event.title@
            &&& card.minutes == if minutes < 120 {
                minutes
            } else {
                120
            }
            &&& event.starts_in_secs <= card.minutes * 60 ==> card.hold_secs == 0
            &&& event.starts_in_secs > card.minutes * 60 ==> card.hold_secs == event.starts_in_secs
                - card.minutes * 60
        },
{
}

/// The wait is what is left over until the lead, whatever the lead is: nothing where the
/// meeting is nearer, and no card where that is more than half a minute, or the meeting has
/// begun.
pub proof fn law_wait_is_what_is_left_over(starts_in_secs: int, lead_secs: int)
    ensures
        hold(starts_in_secs, lead_secs) is Some <==> starts_in_secs > 0 && starts_in_secs - lead_secs
            <= 30,
        hold(starts_in_secs, lead_secs) matches Some(d) ==> d >= 0 && d >= starts_in_secs
            - lead_secs && (d == 0 || d == starts_in_secs - lead_secs),
{
}

} // verus!
