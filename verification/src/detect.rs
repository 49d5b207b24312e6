//! Noticing calls by who holds the microphone.
//!
//! When a known meeting app takes the microphone, a card offers to record; when
//! it lets go during a recording, the card offers to stop, and the recording
//! stops by itself after a while. Nothing here ever starts a recording.

use vstd::prelude::*;

use crate::meeting::MeetingStatus;
use crate::text::{contains, occurs_in, same_text, starts_with, str_view, text_view};

verus! {

/// How often the microphone's holders are looked up, in milliseconds.
pub const POLL_INTERVAL_MS: u64 = 2_000;

/// At most one offer to record per this long, in milliseconds.
pub const NOTIFY_COOLDOWN_MS: u64 = 300_000;

/// How long after the end of a call its recording stops by itself, in
/// milliseconds.
pub const AUTO_STOP_GRACE_MS: u64 = 20_000;

/// Beginnings of the bundle ids of apps whose use of the microphone means a
/// meeting, helper processes included, and what those apps are called.
pub open spec fn meeting_apps() -> Seq<(Seq<char>, Seq<char>)> {
    seq![
        ("us.zoom.xos"@, "Zoom"@),
        ("com.microsoft.teams"@, "Teams"@),
        ("com.apple.FaceTime"@, "FaceTime"@),
        ("com.apple.avconference"@, "FaceTime"@),
        ("com.tinyspeck.slackmacgap"@, "Slack"@),
        ("com.hnc.Discord"@, "Discord"@),
        ("com.cisco"@, "Webex"@),
        ("Cisco-Systems"@, "Webex"@),
        ("com.google.Chrome"@, "Chrome"@),
        ("com.brave.Browser"@, "Brave"@),
        ("com.apple.Safari"@, "Safari"@),
        ("company.thebrowser.Browser"@, "Arc"@),
        ("com.microsoft.edgemac"@, "Edge"@),
        ("org.mozilla.firefox"@, "Firefox"@),
    ]
}

/// Parts of the executable paths of the same apps: the helper processes that
/// hold the microphone often have no bundle id.
pub open spec fn meeting_app_paths() -> Seq<(Seq<char>, Seq<char>)> {
    seq![
        ("zoom.us.app"@, "Zoom"@),
        ("Microsoft Teams.app"@, "Teams"@),
        ("FaceTime.app"@, "FaceTime"@),
        ("avconferenced"@, "FaceTime"@),
        ("Slack.app"@, "Slack"@),
        ("Discord.app"@, "Discord"@),
        ("Webex.app"@, "Webex"@),
        ("Google Chrome"@, "Chrome"@),
        ("Brave Browser"@, "Brave"@),
        ("Safari"@, "Safari"@),
        ("Arc.app"@, "Arc"@),
        ("Microsoft Edge"@, "Edge"@),
        ("Firefox"@, "Firefox"@),
    ]
}

/// A table by its views.
pub open spec fn table_view(t: Seq<(&'static str, &'static str)>) -> Seq<(Seq<char>, Seq<char>)> {
    t.map_values(|e: (&'static str, &'static str)| (e.0@, e.1@))
}

fn meeting_app_table() -> (r: Vec<(&'static str, &'static str)>)
    ensures
        table_view(r@) == meeting_apps(),
{
    vec![
        ("us.zoom.xos", "Zoom"),
        ("com.microsoft.teams", "Teams"),
        ("com.apple.FaceTime", "FaceTime"),
        ("com.apple.avconference", "FaceTime"),
        ("com.tinyspeck.slackmacgap", "Slack"),
        ("com.hnc.Discord", "Discord"),
        ("com.cisco", "Webex"),
        ("Cisco-Systems", "Webex"),
        ("com.google.Chrome", "Chrome"),
        ("com.brave.Browser", "Brave"),
        ("com.apple.Safari", "Safari"),
        ("company.thebrowser.Browser", "Arc"),
        ("com.microsoft.edgemac", "Edge"),
        ("org.mozilla.firefox", "Firefox"),
    ]
}

fn meeting_path_table() -> (r: Vec<(&'static str, &'static str)>)
    ensures
        table_view(r@) == meeting_app_paths(),
{
    vec![
        ("zoom.us.app", "Zoom"),
        ("Microsoft Teams.app", "Teams"),
        ("FaceTime.app", "FaceTime"),
        ("avconferenced", "FaceTime"),
        ("Slack.app", "Slack"),
        ("Discord.app", "Discord"),
        ("Webex.app", "Webex"),
        ("Google Chrome", "Chrome"),
        ("Brave Browser", "Brave"),
        ("Safari", "Safari"),
        ("Arc.app", "Arc"),
        ("Microsoft Edge", "Edge"),
        ("Firefox", "Firefox"),
    ]
}

/// The name in the first entry of the table whose text begins `s`.
pub open spec fn named_by_prefix(table: Seq<(Seq<char>, Seq<char>)>, s: Seq<char>) -> Option<
    Seq<char>,
>
    decreases table.len(),
{
    if table.len() == 0 {
        None
    } else if table[0].0.is_prefix_of(s) {
        Some(table[0].1)
    } else {
        named_by_prefix(table.drop_first(), s)
    }
}

/// The name in the first entry of the table whose text occurs in `s`.
pub open spec fn named_by_part(table: Seq<(Seq<char>, Seq<char>)>, s: Seq<char>) -> Option<
    Seq<char>,
>
    decreases table.len(),
{
    if table.len() == 0 {
        None
    } else if occurs_in(table[0].0, s) {
        Some(table[0].1)
    } else {
        named_by_part(table.drop_first(), s)
    }
}

/// What a meeting app is called, by its bundle id or else by its path.
pub open spec fn app_name(bundle_id: Option<Seq<char>>, path: Option<Seq<char>>) -> Option<
    Seq<char>,
> {
    let by_id = match bundle_id {
        Some(id) => named_by_prefix(meeting_apps(), id),
        None => None,
    };
    if by_id is Some {
        by_id
    } else {
        match path {
            Some(p) => named_by_part(meeting_app_paths(), p),
            None => None,
        }
    }
}

fn find_by_prefix(table: &Vec<(&'static str, &'static str)>, s: &str) -> (r: Option<&'static str>)
    ensures
        match r {
            Some(n) => named_by_prefix(table_view(table@), s@) == Some(n@),
            None => named_by_prefix(table_view(table@), s@) is None,
        },
{
    let ghost all = table_view(table@);
    let mut i: usize = 0;
    assert(all.skip(0) == all);
    while i < table.len()
        invariant
            i <= table@.len(),
            all == table_view(table@),
            named_by_prefix(all.skip(i as int), s@) == named_by_prefix(all, s@),
        decreases table@.len() - i,
    {
        let (text, name) = table[i];
        assert(all.skip(i as int)[0] == (text@, name@));
        assert(all.skip(i as int).drop_first() == all.skip(i + 1));
        if starts_with(s, text) {
            return Some(name);
        }
        i += 1;
    }
    None
}

fn find_by_part(table: &Vec<(&'static str, &'static str)>, s: &str) -> (r: Option<&'static str>)
    ensures
        match r {
            Some(n) => named_by_part(table_view(table@), s@) == Some(n@),
            None => named_by_part(table_view(table@), s@) is None,
        },
{
    let ghost all = table_view(table@);
    let mut i: usize = 0;
    assert(all.skip(0) == all);
    while i < table.len()
        invariant
            i <= table@.len(),
            all == table_view(table@),
            named_by_part(all.skip(i as int), s@) == named_by_part(all, s@),
        decreases table@.len() - i,
    {
        let (text, name) = table[i];
        assert(all.skip(i as int)[0] == (text@, name@));
        assert(all.skip(i as int).drop_first() == all.skip(i + 1));
        if contains(s, text) {
            return Some(name);
        }
        i += 1;
    }
    None
}

/// What a meeting app is called, by its bundle id or else by its path.
pub fn match_meeting_app(bundle_id: Option<&str>, path: Option<&str>) -> (r: Option<&'static str>)
    ensures
        match r {
            Some(n) => app_name(str_view(bundle_id), str_view(path)) == Some(n@),
            None => app_name(str_view(bundle_id), str_view(path)) is None,
        },
{
    if let Some(id) = bundle_id {
        let table = meeting_app_table();
        if let Some(name) = find_by_prefix(&table, id) {
            return Some(name);
        }
    }
    if let Some(p) = path {
        let table = meeting_path_table();
        if let Some(name) = find_by_part(&table, p) {
            return Some(name);
        }
    }
    None
}

/// An input device that a process uses.
pub struct InputDevice {
    /// Its name, where it could be read.
    pub name: Option<String>,
    /// Whether it is a loopback and no microphone.
    pub is_virtual: bool,
}

/// A process that the sound system knows.
pub struct SoundProcess {
    /// Its process id, where it could be read.
    pub pid: Option<i32>,
    /// Whether it captures sound.
    pub runs_input: bool,
    pub bundle_id: Option<String>,
    pub path: Option<String>,
    pub devices: Vec<InputDevice>,
}

/// The meeting app that a process is, if it is another's and captures sound.
pub open spec fn holder(own_pid: i32, p: SoundProcess) -> Option<Seq<char>> {
    match p.pid {
        Some(pid) => if pid != own_pid && p.runs_input {
            app_name(text_view(p.bundle_id), text_view(p.path))
        } else {
            None
        },
        None => None,
    }
}

fn holding_app(own_pid: i32, p: &SoundProcess) -> (r: Option<&'static str>)
    ensures
        match r {
            Some(n) => holder(own_pid, *p) == Some(n@),
            None => holder(own_pid, *p) is None,
        },
{
    match p.pid {
        Some(pid) => {
            if pid == own_pid || !p.runs_input {
                return None;
            }
            let id = match &p.bundle_id {
                Some(s) => Some(s.as_str()),
                None => None,
            };
            let path = match &p.path {
                Some(s) => Some(s.as_str()),
                None => None,
            };
            match_meeting_app(id, path)
        },
        None => None,
    }
}

/// The meeting apps that hold the microphone, each once, in the order in which
/// they were first met.
pub open spec fn holders(own_pid: i32, ps: Seq<SoundProcess>) -> Seq<Seq<char>>
    decreases ps.len(),
{
    if ps.len() == 0 {
        Seq::empty()
    } else {
        let found = holders(own_pid, ps.drop_last());
        match holder(own_pid, ps.last()) {
            Some(name) => if found.contains(name) {
                found
            } else {
                found.push(name)
            },
            None => found,
        }
    }
}

/// Names by their views.
pub open spec fn names_view(v: Seq<&'static str>) -> Seq<Seq<char>> {
    v.map_values(|n: &'static str| n@)
}

fn has_name(names: &Vec<&'static str>, name: &str) -> (r: bool)
    ensures
        r == names_view(names@).contains(name@),
{
    let mut i: usize = 0;
    while i < names.len()
        invariant
            i <= names@.len(),
            forall|k: int| 0 <= k < i ==> #[trigger] names_view(names@)[k] != name@,
        decreases names@.len() - i,
    {
        if same_text(names[i], name) {
            assert(names_view(names@)[i as int] == name@);
            return true;
        }
        i += 1;
    }
    false
}

/// The known meeting apps that hold the microphone.
pub fn mic_using_meeting_apps(own_pid: i32, processes: &Vec<SoundProcess>) -> (r: Vec<&'static str>)
    ensures
        names_view(r@) == holders(own_pid, processes@),
{
    let mut found: Vec<&'static str> = Vec::new();
    let mut i: usize = 0;
    assert(names_view(found@) == holders(own_pid, processes@.take(0)));
    while i < processes.len()
        invariant
            i <= processes@.len(),
            names_view(found@) == holders(own_pid, processes@.take(i as int)),
        decreases processes@.len() - i,
    {
        assert(processes@.take(i + 1).drop_last() == processes@.take(i as int));
        if let Some(name) = holding_app(own_pid, &processes[i]) {
            if !has_name(&found, name) {
                let ghost before = names_view(found@);
                found.push(name);
                assert(names_view(found@) == before.push(name@));
            }
        }
        i += 1;
    }
    assert(processes@.take(i as int) == processes@);
    found
}

/// The microphone that a meeting app on the current call is capturing from.
pub struct CallMic {
    pub device_name: String,
    pub app: &'static str,
}

/// The name of the first device that is a microphone and has one.
pub open spec fn real_device(ds: Seq<InputDevice>) -> Option<Seq<char>>
    decreases ds.len(),
{
    if ds.len() == 0 {
        None
    } else {
        match ds[0].name {
            Some(n) => if ds[0].is_virtual {
                real_device(ds.drop_first())
            } else {
                Some(n@)
            },
            None => real_device(ds.drop_first()),
        }
    }
}

/// The device and the app of the first meeting app with a real microphone.
pub open spec fn call_mic_spec(own_pid: i32, ps: Seq<SoundProcess>) -> Option<(Seq<char>, Seq<char>)>
    decreases ps.len(),
{
    if ps.len() == 0 {
        None
    } else {
        match (holder(own_pid, ps[0]), real_device(ps[0].devices@)) {
            (Some(app), Some(device)) => Some((device, app)),
            _ => call_mic_spec(own_pid, ps.drop_first()),
        }
    }
}

fn find_real_device(ds: &Vec<InputDevice>) -> (r: Option<String>)
    ensures
        text_view(r) == real_device(ds@),
{
    let mut i: usize = 0;
    assert(ds@.skip(0) == ds@);
    while i < ds.len()
        invariant
            i <= ds@.len(),
            real_device(ds@.skip(i as int)) == real_device(ds@),
        decreases ds@.len() - i,
    {
        assert(ds@.skip(i as int)[0] == ds@[i as int]);
        assert(ds@.skip(i as int).drop_first() == ds@.skip(i + 1));
        match &ds[i].name {
            Some(n) => {
                if !ds[i].is_virtual {
                    return Some(n.clone());
                }
            },
            None => {},
        }
        i += 1;
    }
    None
}

/// Which input device the meeting app of the current call uses. Virtual devices
/// are passed over: recording one would capture the call's output.
pub fn call_mic(own_pid: i32, processes: &Vec<SoundProcess>) -> (r: Option<CallMic>)
    ensures
        match r {
            Some(m) => call_mic_spec(own_pid, processes@) == Some((m.device_name@, m.app@)),
            None => call_mic_spec(own_pid, processes@) is None,
        },
{
    let mut i: usize = 0;
    assert(processes@.skip(0) == processes@);
    while i < processes.len()
        invariant
            i <= processes@.len(),
            call_mic_spec(own_pid, processes@.skip(i as int)) == call_mic_spec(
                own_pid,
                processes@,
            ),
        decreases processes@.len() - i,
    {
        assert(processes@.skip(i as int)[0] == processes@[i as int]);
        assert(processes@.skip(i as int).drop_first() == processes@.skip(i + 1));
        if let Some(app) = holding_app(own_pid, &processes[i]) {
            if let Some(device_name) = find_real_device(&processes[i].devices) {
                return Some(CallMic { device_name, app });
            }
        }
        i += 1;
    }
    None
}

/// How much later `now` is than `then`.
pub open spec fn since(now: u64, then: u64) -> int {
    if now < then {
        0
    } else {
        now - then
    }
}

fn elapsed(now: u64, then: u64) -> (r: u64)
    ensures
        r == since(now, then),
{
    if now < then {
        0
    } else {
        now - then
    }
}

/// What the detector remembers, as its laws see it.
pub struct DetectorView {
    pub previous: Seq<Seq<char>>,
    pub last_prompt: Option<u64>,
    pub call_end: Option<u64>,
}

/// What the detector is told at one poll: who holds the microphone, what the
/// recording does, and when it is, in milliseconds.
pub struct Poll {
    pub current: Seq<Seq<char>>,
    pub status: MeetingStatus,
    pub now: u64,
}

/// What a poll asks for.
pub struct StepView {
    /// Keep what is heard from here on, for this app's call.
    pub start_standby: Option<Seq<char>>,
    /// Let go of what was kept: the call ended.
    pub stop_standby: bool,
    /// Offer to record the call of this app.
    pub offer_start: Option<Seq<char>>,
    /// Offer to stop: the call of this app ended.
    pub offer_stop: Option<Seq<char>>,
    /// Show the recording indicator again: the call goes on.
    pub resume: bool,
    /// Stop the recording.
    pub auto_stop: bool,
}

impl DetectorView {
    pub open spec fn call_started(self, p: Poll) -> bool {
        p.current.len() > 0 && self.previous.len() == 0
    }

    pub open spec fn call_ended(self, p: Poll) -> bool {
        p.current.len() == 0 && self.previous.len() > 0
    }

    /// Whether the last offer to record is long enough ago.
    pub open spec fn cooled_down(self, p: Poll) -> bool {
        match self.last_prompt {
            Some(t) => since(p.now, t) >= NOTIFY_COOLDOWN_MS,
            None => true,
        }
    }

    /// Whether the offer to record is made.
    pub open spec fn offers(self, p: Poll) -> bool {
        self.call_started(p) && p.status != MeetingStatus::Recording && self.cooled_down(p)
    }

    /// When the call ended that is still waited for, before the wait is over.
    pub open spec fn waiting(self, p: Poll) -> Option<u64> {
        if p.current.len() > 0 {
            None
        } else if self.call_ended(p) && p.status == MeetingStatus::Recording {
            Some(p.now)
        } else {
            self.call_end
        }
    }

    /// Whether the wait is over and the recording stops.
    pub open spec fn stops(self, p: Poll) -> bool {
        match self.waiting(p) {
            Some(t) => p.status == MeetingStatus::Recording && since(p.now, t) >= AUTO_STOP_GRACE_MS,
            None => false,
        }
    }

    /// What the detector remembers after a poll.
    pub open spec fn after(self, p: Poll) -> DetectorView {
        DetectorView {
            previous: p.current,
            last_prompt: if self.offers(p) {
                Some(p.now)
            } else {
                self.last_prompt
            },
            call_end: if p.status != MeetingStatus::Recording || self.stops(p) {
                None
            } else {
                self.waiting(p)
            },
        }
    }

    /// What a poll asks for.
    pub open spec fn step(self, p: Poll) -> StepView {
        let recording = p.status == MeetingStatus::Recording;
        StepView {
            start_standby: if self.call_started(p) && !recording {
                Some(p.current[0])
            } else {
                None
            },
            stop_standby: self.call_ended(p) && !recording,
            offer_start: if self.offers(p) {
                Some(p.current[0])
            } else {
                None
            },
            offer_stop: if self.call_ended(p) && recording {
                Some(self.previous[0])
            } else {
                None
            },
            resume: p.current.len() > 0 && self.call_end is Some && recording,
            auto_stop: self.stops(p),
        }
    }
}

/// What the detector remembers from one poll to the next.
pub struct Detector {
    pub previous: Vec<&'static str>,
    pub last_prompt: Option<u64>,
    pub call_end: Option<u64>,
}

/// What a poll asks for.
pub struct DetectorStep {
    pub start_standby: Option<&'static str>,
    pub stop_standby: bool,
    pub offer_start: Option<&'static str>,
    pub offer_stop: Option<&'static str>,
    pub resume: bool,
    pub auto_stop: bool,
}

impl DetectorStep {
    pub open spec fn view(&self) -> StepView {
        StepView {
            start_standby: str_view(self.start_standby),
            stop_standby: self.stop_standby,
            offer_start: str_view(self.offer_start),
            offer_stop: str_view(self.offer_stop),
            resume: self.resume,
            auto_stop: self.auto_stop,
        }
    }
}

impl Detector {
    pub open spec fn view(&self) -> DetectorView {
        DetectorView {
            previous: names_view(self.previous@),
            last_prompt: self.last_prompt,
            call_end: self.call_end,
        }
    }

    /// A detector that has seen nothing.
    pub fn new() -> (r: Self)
        ensures
            r@ == (DetectorView { previous: Seq::empty(), last_prompt: None, call_end: None }),
    {
        let r = Detector { previous: Vec::new(), last_prompt: None, call_end: None };
        assert(names_view(r.previous@) == Seq::<Seq<char>>::empty());
        r
    }

    /// One poll: who holds the microphone, what the recording does, and when it
    /// is, in milliseconds.
    pub fn poll(&mut self, current: Vec<&'static str>, status: MeetingStatus, now: u64) -> (r:
        DetectorStep)
        ensures
            r@ == old(self)@.step(
                (Poll { current: names_view(current@), status, now }),
            ),
            final(self)@ == old(self)@.after(
                (Poll { current: names_view(current@), status, now }),
            ),
    {
        let ghost p = Poll { current: names_view(current@), status, now };
        let ghost before = self@;
        let recording = matches!(status, MeetingStatus::Recording);
        let started = current.len() > 0 && self.previous.len() == 0;
        let ended = current.len() == 0 && self.previous.len() > 0;
        let mut r = DetectorStep {
            start_standby: None,
            stop_standby: ended && !recording,
            offer_start: None,
            offer_stop: None,
            resume: false,
            auto_stop: false,
        };
        if started && !recording {
            r.start_standby = Some(current[0]);
            let cooled = match self.last_prompt {
                Some(t) => elapsed(now, t) >= NOTIFY_COOLDOWN_MS,
                None => true,
            };
            if cooled {
                r.offer_start = Some(current[0]);
                self.last_prompt = Some(now);
            }
        }
        if ended && recording {
            r.offer_stop = Some(self.previous[0]);
            self.call_end = Some(now);
        }
        if current.len() > 0 {
            r.resume = self.call_end.is_some() && recording;
            self.call_end = None;
        }
        if let Some(t) = self.call_end {
            if !recording {
                self.call_end = None;
            } else if elapsed(now, t) >= AUTO_STOP_GRACE_MS {
                self.call_end = None;
                r.auto_stop = true;
            }
        }
        self.previous = current;
        assert(self@ == before.after(p));
        assert(r@ == before.step(p));
        r
    }
}

/// What the detector remembers after all the polls.
pub open spec fn after_polls(d: DetectorView, ps: Seq<Poll>) -> DetectorView
    decreases ps.len(),
{
    if ps.len() == 0 {
        d
    } else {
        after_polls(d, ps.drop_last()).after(ps.last())
    }
}

/// What the detector remembers before poll `k`.
pub open spec fn before_poll(d: DetectorView, ps: Seq<Poll>, k: int) -> DetectorView {
    after_polls(d, ps.take(k))
}

/// Whether time does not run backwards.
pub open spec fn in_time(ps: Seq<Poll>) -> bool {
    forall|i: int, j: int| 0 <= i < j < ps.len() ==> (#[trigger] ps[i]).now <= (#[trigger] ps[j]).now
}

proof fn lemma_next_poll(d: DetectorView, ps: Seq<Poll>, k: int)
    requires
        0 <= k < ps.len(),
    ensures
        before_poll(d, ps, k + 1) == before_poll(d, ps, k).after(ps[k]),
{
    assert(ps.take(k + 1).drop_last() == ps.take(k));
}

proof fn lemma_offer_is_remembered(d: DetectorView, ps: Seq<Poll>, m: int, k: int)
    requires
        in_time(ps),
        0 <= m < k <= ps.len(),
        before_poll(d, ps, m).offers(ps[m]),
    ensures
        before_poll(d, ps, k).last_prompt matches Some(t) && t >= ps[m].now,
    decreases k,
{
    lemma_next_poll(d, ps, k - 1);
    if m < k - 1 {
        lemma_offer_is_remembered(d, ps, m, k - 1);
        assert(ps[m].now <= ps[k - 1].now);
    }
}

/// The user is not nagged: two offers to record are at least five minutes apart.
pub proof fn law_offers_are_spaced(d: DetectorView, ps: Seq<Poll>, m: int, n: int)
    requires
        in_time(ps),
        0 <= m < n < ps.len(),
        before_poll(d, ps, m).step(ps[m]).offer_start is Some,
        before_poll(d, ps, n).step(ps[n]).offer_start is Some,
    ensures
        ps[n].now - ps[m].now >= NOTIFY_COOLDOWN_MS,
{
    lemma_offer_is_remembered(d, ps, m, n);
}

/// Whether the offer to stop was made at poll `m`, and from there up to poll `k`
/// the recording went on while no app held the microphone.
pub open spec fn offered_and_quiet(d: DetectorView, ps: Seq<Poll>, m: int, k: int) -> bool {
    &&& 0 <= m < k
    &&& before_poll(d, ps, m).step(ps[m]).offer_stop is Some
    &&& forall|j: int|
        m <= j < k ==> (#[trigger] ps[j]).current.len() == 0 && ps[j].status
            == MeetingStatus::Recording
}

proof fn lemma_wait_began_with_an_offer(d: DetectorView, ps: Seq<Poll>, k: int) -> (m: int)
    requires
        d.call_end is None,
        0 <= k <= ps.len(),
        before_poll(d, ps, k).call_end is Some,
    ensures
        offered_and_quiet(d, ps, m, k),
        before_poll(d, ps, k).call_end == Some(ps[m].now),
    decreases k,
{
    assert(k > 0);
    lemma_next_poll(d, ps, k - 1);
    let b = before_poll(d, ps, k - 1);
    if b.call_ended(ps[k - 1]) && ps[k - 1].status == MeetingStatus::Recording {
        k - 1
    } else {
        lemma_wait_began_with_an_offer(d, ps, k - 1)
    }
}

/// A recording never stops by itself unasked: the offer to stop it was shown at
/// least twenty seconds before, and ever since no meeting app held the microphone.
pub proof fn law_auto_stop_was_offered(d: DetectorView, ps: Seq<Poll>, n: int) -> (m: int)
    requires
        d.call_end is None,
        0 <= n < ps.len(),
        before_poll(d, ps, n).step(ps[n]).auto_stop,
    ensures
        offered_and_quiet(d, ps, m, n + 1),
        m < n,
        ps[n].now - ps[m].now >= AUTO_STOP_GRACE_MS,
{
    lemma_wait_began_with_an_offer(d, ps, n)
}

proof fn lemma_wait_goes_on(d: DetectorView, ps: Seq<Poll>, m: int, k: int)
    requires
        offered_and_quiet(d, ps, m, k),
        k <= ps.len(),
        forall|j: int| m <= j < k ==> (#[trigger] ps[j]).now - ps[m].now < AUTO_STOP_GRACE_MS,
    ensures
        before_poll(d, ps, k).call_end == Some(ps[m].now),
        before_poll(d, ps, k).previous.len() == 0,
        !before_poll(d, ps, k - 1).step(ps[k - 1]).auto_stop,
    decreases k,
{
    lemma_next_poll(d, ps, k - 1);
    if m < k - 1 {
        lemma_wait_goes_on(d, ps, m, k - 1);
    }
}

/// A recording that was left alone stops by itself: once the offer to stop it was made,
/// and while no meeting app comes back, it stops at the first poll twenty seconds or
/// more after the offer, and at none before.
pub proof fn law_auto_stop_comes(d: DetectorView, ps: Seq<Poll>, m: int, n: int)
    requires
        offered_and_quiet(d, ps, m, n + 1),
        m < n < ps.len(),
        ps[n].now - ps[m].now >= AUTO_STOP_GRACE_MS,
        forall|j: int| m <= j < n ==> (#[trigger] ps[j]).now - ps[m].now < AUTO_STOP_GRACE_MS,
    ensures
        before_poll(d, ps, n).step(ps[n]).auto_stop,
        forall|j: int|
            m <= j < n ==> !(#[trigger] before_poll(d, ps, j).step(ps[j])).auto_stop,
{
    lemma_wait_goes_on(d, ps, m, n);
    assert(ps[n].current.len() == 0 && ps[n].status == MeetingStatus::Recording);
    assert forall|j: int| m <= j < n implies !(#[trigger] before_poll(d, ps, j).step(
        ps[j],
    )).auto_stop by {
        lemma_wait_goes_on(d, ps, m, j + 1);
    }
}

/// A call that resumes cancels the pending stop.
pub proof fn law_resumed_call_goes_on(d: DetectorView, p: Poll)
    requires
        p.current.len() > 0,
    ensures
        !d.step(p).auto_stop,
        d.after(p).call_end is None,
{
}

/// What is kept of a call follows the call and not the offer: it begins with every
/// call that starts outside a recording, offered or not, and ends with it.
pub proof fn law_standby_follows_the_call(d: DetectorView, p: Poll)
    requires
        p.status != MeetingStatus::Recording,
    ensures
        d.step(p).start_standby is Some <==> d.call_started(p),
        d.step(p).stop_standby <==> d.call_ended(p),
        d.step(p).offer_start is Some ==> d.step(p).start_standby == d.step(p).offer_start,
{
}

proof fn lemma_one_prefix(a: Seq<char>, b: Seq<char>, s: Seq<char>, i: int)
    requires
        b.is_prefix_of(s),
        0 <= i < a.len(),
        i < b.len(),
        a[i] != b[i],
    ensures
        !a.is_prefix_of(s),
{
    if a.is_prefix_of(s) {
        assert(s.take(a.len() as int)[i] == s.take(b.len() as int)[i]);
    }
}

proof fn lemma_first_prefix(table: Seq<(Seq<char>, Seq<char>)>, s: Seq<char>, k: int)
    requires
        0 <= k < table.len(),
        table[k].0.is_prefix_of(s),
        forall|l: int| 0 <= l < k ==> !(#[trigger] table[l]).0.is_prefix_of(s),
    ensures
        named_by_prefix(table, s) == Some(table[k].1),
    decreases k,
{
    if k > 0 {
        let rest = table.drop_first();
        assert(!table[0].0.is_prefix_of(s));
        assert forall|l: int| 0 <= l < k - 1 implies !(#[trigger] rest[l]).0.is_prefix_of(s) by {
            assert(rest[l] == table[l + 1]);
        }
        lemma_first_prefix(rest, s, k - 1);
    }
}

proof fn lemma_no_prefix(table: Seq<(Seq<char>, Seq<char>)>, s: Seq<char>)
    requires
        forall|l: int| 0 <= l < table.len() ==> !(#[trigger] table[l]).0.is_prefix_of(s),
    ensures
        named_by_prefix(table, s) is None,
    decreases table.len(),
{
    if table.len() > 0 {
        let rest = table.drop_first();
        assert(!table[0].0.is_prefix_of(s));
        assert forall|l: int| 0 <= l < rest.len() implies !(#[trigger] rest[l]).0.is_prefix_of(s) by {
            assert(rest[l] == table[l + 1]);
        }
        lemma_no_prefix(rest, s);
    }
}

proof fn lemma_first_part(table: Seq<(Seq<char>, Seq<char>)>, s: Seq<char>, k: int)
    requires
        0 <= k < table.len(),
        occurs_in(table[k].0, s),
        forall|l: int| 0 <= l < k ==> !occurs_in((#[trigger] table[l]).0, s),
    ensures
        named_by_part(table, s) == Some(table[k].1),
    decreases k,
{
    if k > 0 {
        let rest = table.drop_first();
        assert(!occurs_in(table[0].0, s));
        assert forall|l: int| 0 <= l < k - 1 implies !occurs_in((#[trigger] rest[l]).0, s) by {
            assert(rest[l] == table[l + 1]);
        }
        lemma_first_part(rest, s, k - 1);
    }
}

proof fn lemma_no_part(table: Seq<(Seq<char>, Seq<char>)>, s: Seq<char>)
    requires
        forall|l: int| 0 <= l < table.len() ==> !occurs_in((#[trigger] table[l]).0, s),
    ensures
        named_by_part(table, s) is None,
    decreases table.len(),
{
    if table.len() > 0 {
        let rest = table.drop_first();
        assert(!occurs_in(table[0].0, s));
        assert forall|l: int| 0 <= l < rest.len() implies !occurs_in((#[trigger] rest[l]).0, s) by {
            assert(rest[l] == table[l + 1]);
        }
        lemma_no_part(rest, s);
    }
}

/// How the bundle ids of the known apps begin.
pub open spec fn known_beginnings() -> Seq<Seq<char>> {
    seq![
        "us.zoom.xos"@,
        "com.microsoft.teams"@,
        "com.apple.FaceTime"@,
        "com.apple.avconference"@,
        "com.tinyspeck.slackmacgap"@,
        "com.hnc.Discord"@,
        "com.cisco"@,
        "Cisco-Systems"@,
        "com.google.Chrome"@,
        "com.brave.Browser"@,
        "com.apple.Safari"@,
        "company.thebrowser.Browser"@,
        "com.microsoft.edgemac"@,
        "org.mozilla.firefox"@,
    ]
}

/// What the executable paths of the known apps hold.
pub open spec fn known_parts() -> Seq<Seq<char>> {
    seq![
        "zoom.us.app"@,
        "Microsoft Teams.app"@,
        "FaceTime.app"@,
        "avconferenced"@,
        "Slack.app"@,
        "Discord.app"@,
        "Webex.app"@,
        "Google Chrome"@,
        "Brave Browser"@,
        "Safari"@,
        "Arc.app"@,
        "Microsoft Edge"@,
        "Firefox"@,
    ]
}

/// The known apps are known by how their bundle ids begin, wherever they lie.
#[verifier::spinoff_prover]
pub proof fn law_known_apps_are_known_by_id(id: Seq<char>, path: Option<Seq<char>>)
    ensures
        "us.zoom.xos"@.is_prefix_of(id) ==> app_name(Some(id), path) == Some("Zoom"@),
        "com.microsoft.teams"@.is_prefix_of(id) ==> app_name(Some(id), path) == Some("Teams"@),
        "com.apple.FaceTime"@.is_prefix_of(id) ==> app_name(Some(id), path) == Some("FaceTime"@),
        "com.apple.avconference"@.is_prefix_of(id) ==> app_name(Some(id), path) == Some("FaceTime"@),
        "com.tinyspeck.slackmacgap"@.is_prefix_of(id) ==> app_name(Some(id), path) == Some("Slack"@),
        "com.hnc.Discord"@.is_prefix_of(id) ==> app_name(Some(id), path) == Some("Discord"@),
        "com.cisco"@.is_prefix_of(id) ==> app_name(Some(id), path) == Some("Webex"@),
        "Cisco-Systems"@.is_prefix_of(id) ==> app_name(Some(id), path) == Some("Webex"@),
        "com.google.Chrome"@.is_prefix_of(id) ==> app_name(Some(id), path) == Some("Chrome"@),
        "com.brave.Browser"@.is_prefix_of(id) ==> app_name(Some(id), path) == Some("Brave"@),
        "com.apple.Safari"@.is_prefix_of(id) ==> app_name(Some(id), path) == Some("Safari"@),
        "company.thebrowser.Browser"@.is_prefix_of(id) ==> app_name(Some(id), path) == Some("Arc"@),
        "com.microsoft.edgemac"@.is_prefix_of(id) ==> app_name(Some(id), path) == Some("Edge"@),
        "org.mozilla.firefox"@.is_prefix_of(id) ==> app_name(Some(id), path) == Some("Firefox"@),
{
    let table = meeting_apps();
    reveal_strlit("us.zoom.xos");
    reveal_strlit("com.microsoft.teams");
    reveal_strlit("com.apple.FaceTime");
    reveal_strlit("com.apple.avconference");
    reveal_strlit("com.tinyspeck.slackmacgap");
    reveal_strlit("com.hnc.Discord");
    reveal_strlit("com.cisco");
    reveal_strlit("Cisco-Systems");
    reveal_strlit("com.google.Chrome");
    reveal_strlit("com.brave.Browser");
    reveal_strlit("com.apple.Safari");
    reveal_strlit("company.thebrowser.Browser");
    reveal_strlit("com.microsoft.edgemac");
    reveal_strlit("org.mozilla.firefox");
    if "us.zoom.xos"@.is_prefix_of(id) {
        lemma_first_prefix(table, id, 0);
    }
    if "com.microsoft.teams"@.is_prefix_of(id) {
        lemma_one_prefix(table[0].0, table[1].0, id, 0);
        lemma_first_prefix(table, id, 1);
    }
    if "com.apple.FaceTime"@.is_prefix_of(id) {
        lemma_one_prefix(table[0].0, table[2].0, id, 0);
        lemma_one_prefix(table[1].0, table[2].0, id, 4);
        lemma_first_prefix(table, id, 2);
    }
    if "com.apple.avconference"@.is_prefix_of(id) {
        lemma_one_prefix(table[0].0, table[3].0, id, 0);
        lemma_one_prefix(table[1].0, table[3].0, id, 4);
        lemma_one_prefix(table[2].0, table[3].0, id, 10);
        lemma_first_prefix(table, id, 3);
    }
    if "com.tinyspeck.slackmacgap"@.is_prefix_of(id) {
        lemma_one_prefix(table[0].0, table[4].0, id, 0);
        lemma_one_prefix(table[1].0, table[4].0, id, 4);
        lemma_one_prefix(table[2].0, table[4].0, id, 4);
        lemma_one_prefix(table[3].0, table[4].0, id, 4);
        lemma_first_prefix(table, id, 4);
    }
    if "com.hnc.Discord"@.is_prefix_of(id) {
        lemma_one_prefix(table[0].0, table[5].0, id, 0);
        lemma_one_prefix(table[1].0, table[5].0, id, 4);
        lemma_one_prefix(table[2].0, table[5].0, id, 4);
        lemma_one_prefix(table[3].0, table[5].0, id, 4);
        lemma_one_prefix(table[4].0, table[5].0, id, 4);
        lemma_first_prefix(table, id, 5);
    }
    if "com.cisco"@.is_prefix_of(id) {
        lemma_one_prefix(table[0].0, table[6].0, id, 0);
        lemma_one_prefix(table[1].0, table[6].0, id, 4);
        lemma_one_prefix(table[2].0, table[6].0, id, 4);
        lemma_one_prefix(table[3].0, table[6].0, id, 4);
        lemma_one_prefix(table[4].0, table[6].0, id, 4);
        lemma_one_prefix(table[5].0, table[6].0, id, 4);
        lemma_first_prefix(table, id, 6);
    }
    if "Cisco-Systems"@.is_prefix_of(id) {
        lemma_one_prefix(table[0].0, table[7].0, id, 0);
        lemma_one_prefix(table[1].0, table[7].0, id, 0);
        lemma_one_prefix(table[2].0, table[7].0, id, 0);
        lemma_one_prefix(table[3].0, table[7].0, id, 0);
        lemma_one_prefix(table[4].0, table[7].0, id, 0);
        lemma_one_prefix(table[5].0, table[7].0, id, 0);
        lemma_one_prefix(table[6].0, table[7].0, id, 0);
        lemma_first_prefix(table, id, 7);
    }
    if "com.google.Chrome"@.is_prefix_of(id) {
        lemma_one_prefix(table[0].0, table[8].0, id, 0);
        lemma_one_prefix(table[1].0, table[8].0, id, 4);
        lemma_one_prefix(table[2].0, table[8].0, id, 4);
        lemma_one_prefix(table[3].0, table[8].0, id, 4);
        lemma_one_prefix(table[4].0, table[8].0, id, 4);
        lemma_one_prefix(table[5].0, table[8].0, id, 4);
        lemma_one_prefix(table[6].0, table[8].0, id, 4);
        lemma_one_prefix(table[7].0, table[8].0, id, 0);
        lemma_first_prefix(table, id, 8);
    }
    if "com.brave.Browser"@.is_prefix_of(id) {
        lemma_one_prefix(table[0].0, table[9].0, id, 0);
        lemma_one_prefix(table[1].0, table[9].0, id, 4);
        lemma_one_prefix(table[2].0, table[9].0, id, 4);
        lemma_one_prefix(table[3].0, table[9].0, id, 4);
        lemma_one_prefix(table[4].0, table[9].0, id, 4);
        lemma_one_prefix(table[5].0, table[9].0, id, 4);
        lemma_one_prefix(table[6].0, table[9].0, id, 4);
        lemma_one_prefix(table[7].0, table[9].0, id, 0);
        lemma_one_prefix(table[8].0, table[9].0, id, 4);
        lemma_first_prefix(table, id, 9);
    }
    if "com.apple.Safari"@.is_prefix_of(id) {
        lemma_one_prefix(table[0].0, table[10].0, id, 0);
        lemma_one_prefix(table[1].0, table[10].0, id, 4);
        lemma_one_prefix(table[2].0, table[10].0, id, 10);
        lemma_one_prefix(table[3].0, table[10].0, id, 10);
        lemma_one_prefix(table[4].0, table[10].0, id, 4);
        lemma_one_prefix(table[5].0, table[10].0, id, 4);
        lemma_one_prefix(table[6].0, table[10].0, id, 4);
        lemma_one_prefix(table[7].0, table[10].0, id, 0);
        lemma_one_prefix(table[8].0, table[10].0, id, 4);
        lemma_one_prefix(table[9].0, table[10].0, id, 4);
        lemma_first_prefix(table, id, 10);
    }
    if "company.thebrowser.Browser"@.is_prefix_of(id) {
        lemma_one_prefix(table[0].0, table[11].0, id, 0);
        lemma_one_prefix(table[1].0, table[11].0, id, 3);
        lemma_one_prefix(table[2].0, table[11].0, id, 3);
        lemma_one_prefix(table[3].0, table[11].0, id, 3);
        lemma_one_prefix(table[4].0, table[11].0, id, 3);
        lemma_one_prefix(table[5].0, table[11].0, id, 3);
        lemma_one_prefix(table[6].0, table[11].0, id, 3);
        lemma_one_prefix(table[7].0, table[11].0, id, 0);
        lemma_one_prefix(table[8].0, table[11].0, id, 3);
        lemma_one_prefix(table[9].0, table[11].0, id, 3);
        lemma_one_prefix(table[10].0, table[11].0, id, 3);
        lemma_first_prefix(table, id, 11);
    }
    if "com.microsoft.edgemac"@.is_prefix_of(id) {
        lemma_one_prefix(table[0].0, table[12].0, id, 0);
        lemma_one_prefix(table[1].0, table[12].0, id, 14);
        lemma_one_prefix(table[2].0, table[12].0, id, 4);
        lemma_one_prefix(table[3].0, table[12].0, id, 4);
        lemma_one_prefix(table[4].0, table[12].0, id, 4);
        lemma_one_prefix(table[5].0, table[12].0, id, 4);
        lemma_one_prefix(table[6].0, table[12].0, id, 4);
        lemma_one_prefix(table[7].0, table[12].0, id, 0);
        lemma_one_prefix(table[8].0, table[12].0, id, 4);
        lemma_one_prefix(table[9].0, table[12].0, id, 4);
        lemma_one_prefix(table[10].0, table[12].0, id, 4);
        lemma_one_prefix(table[11].0, table[12].0, id, 3);
        lemma_first_prefix(table, id, 12);
    }
    if "org.mozilla.firefox"@.is_prefix_of(id) {
        lemma_one_prefix(table[0].0, table[13].0, id, 0);
        lemma_one_prefix(table[1].0, table[13].0, id, 0);
        lemma_one_prefix(table[2].0, table[13].0, id, 0);
        lemma_one_prefix(table[3].0, table[13].0, id, 0);
        lemma_one_prefix(table[4].0, table[13].0, id, 0);
        lemma_one_prefix(table[5].0, table[13].0, id, 0);
        lemma_one_prefix(table[6].0, table[13].0, id, 0);
        lemma_one_prefix(table[7].0, table[13].0, id, 0);
        lemma_one_prefix(table[8].0, table[13].0, id, 0);
        lemma_one_prefix(table[9].0, table[13].0, id, 0);
        lemma_one_prefix(table[10].0, table[13].0, id, 0);
        lemma_one_prefix(table[11].0, table[13].0, id, 0);
        lemma_one_prefix(table[12].0, table[13].0, id, 0);
        lemma_first_prefix(table, id, 13);
    }
}

/// Whether the path holds the part with this number of those that tell the apps, and none
/// of the others.
pub open spec fn path_marks(path: Seq<char>, k: int) -> bool {
    forall|l: int|
        0 <= l < known_parts().len() ==> (occurs_in(#[trigger] known_parts()[l], path) <==> l == k)
}

/// The known apps are known by their paths, where they have no bundle id; and where
/// neither id nor path is known, the app is not.
#[verifier::spinoff_prover]
pub proof fn law_known_apps_are_known_by_path(path: Seq<char>, id: Seq<char>)
    ensures
        path_marks(path, 0) ==> app_name(None, Some(path)) == Some("Zoom"@),
        path_marks(path, 1) ==> app_name(None, Some(path)) == Some("Teams"@),
        path_marks(path, 2) ==> app_name(None, Some(path)) == Some("FaceTime"@),
        path_marks(path, 3) ==> app_name(None, Some(path)) == Some("FaceTime"@),
        path_marks(path, 4) ==> app_name(None, Some(path)) == Some("Slack"@),
        path_marks(path, 5) ==> app_name(None, Some(path)) == Some("Discord"@),
        path_marks(path, 6) ==> app_name(None, Some(path)) == Some("Webex"@),
        path_marks(path, 7) ==> app_name(None, Some(path)) == Some("Chrome"@),
        path_marks(path, 8) ==> app_name(None, Some(path)) == Some("Brave"@),
        path_marks(path, 9) ==> app_name(None, Some(path)) == Some("Safari"@),
        path_marks(path, 10) ==> app_name(None, Some(path)) == Some("Arc"@),
        path_marks(path, 11) ==> app_name(None, Some(path)) == Some("Edge"@),
        path_marks(path, 12) ==> app_name(None, Some(path)) == Some("Firefox"@),
        (forall|l: int|
            0 <= l < known_parts().len() ==> !occurs_in(#[trigger] known_parts()[l], path)) && (
        forall|l: int|
            0 <= l < known_beginnings().len() ==> !(#[trigger] known_beginnings()[l]).is_prefix_of(
                id,
            )) ==> app_name(Some(id), Some(path)) is None && app_name(None, Some(path)) is None
            && app_name(Some(id), None) is None,
        app_name(None, None) is None,
{
    let parts = known_parts();
    let table = meeting_app_paths();
    assert(parts.len() == table.len());
    assert forall|l: int| 0 <= l < parts.len() implies #[trigger] table[l].0 == parts[l] by {}
    assert forall|k: int| 0 <= k < parts.len() && #[trigger] path_marks(path, k) implies app_name(
        None,
        Some(path),
    ) == Some(table[k].1) by {
        assert(occurs_in(parts[k], path));
        assert forall|l: int| 0 <= l < k implies !occurs_in((#[trigger] table[l]).0, path) by {
            assert(!occurs_in(parts[l], path));
        }
        lemma_first_part(table, path, k);
    }
    if (forall|l: int| 0 <= l < parts.len() ==> !occurs_in(#[trigger] parts[l], path)) && (forall|
        l: int,
    |
        0 <= l < known_beginnings().len() ==> !(#[trigger] known_beginnings()[l]).is_prefix_of(id)) {
        assert forall|l: int| 0 <= l < table.len() implies !occurs_in((#[trigger] table[l]).0, path) by {
            assert(!occurs_in(parts[l], path));
        }
        lemma_no_part(table, path);
        let ids = meeting_apps();
        assert forall|l: int| 0 <= l < ids.len() implies !(#[trigger] ids[l]).0.is_prefix_of(id) by {
            assert(!known_beginnings()[l].is_prefix_of(id));
        }
        lemma_no_prefix(ids, id);
    }
}

/// Whether a process captures sound as the app of this name, and is not this one.
pub open spec fn captures_as(own_pid: i32, p: SoundProcess, name: Seq<char>) -> bool {
    &&& p.runs_input
    &&& p.pid matches Some(pid) && pid != own_pid
    &&& app_name(text_view(p.bundle_id), text_view(p.path)) == Some(name)
}

/// Who holds the microphone is each app of which a process captures sound, once, in the
/// order of their first processes.
pub proof fn law_holders_are_those_that_capture(own_pid: i32, ps: Seq<SoundProcess>, name: Seq<char>)
    ensures
        holders(own_pid, ps).contains(name) <==> exists|k: int|
            0 <= k < ps.len() && captures_as(own_pid, #[trigger] ps[k], name),
        holders(own_pid, ps).no_duplicates(),
    decreases ps.len(),
{
    if ps.len() > 0 {
        let earlier = ps.drop_last();
        let found = holders(own_pid, earlier);
        law_holders_are_those_that_capture(own_pid, earlier, name);
        let last = ps[ps.len() - 1];
        let all = holders(own_pid, ps);
        match holder(own_pid, last) {
            Some(n) => {
                assert(captures_as(own_pid, last, n));
                assert(captures_as(own_pid, last, name) <==> n == name);
                if !found.contains(n) {
                    assert(all == found.push(n));
                    assert(all[found.len() as int] == n);
                    if found.contains(name) {
                        let i = choose|i: int| 0 <= i < found.len() && found[i] == name;
                        assert(all[i] == name);
                    }
                    if all.contains(name) && n != name {
                        let i = choose|i: int| 0 <= i < all.len() && all[i] == name;
                        assert(found[i] == name);
                    }
                }
            },
            None => {
                assert(!captures_as(own_pid, last, name));
            },
        }
        if exists|k: int| 0 <= k < earlier.len() && captures_as(own_pid, #[trigger] earlier[k], name) {
            let k = choose|k: int|
                0 <= k < earlier.len() && captures_as(own_pid, #[trigger] earlier[k], name);
            assert(captures_as(own_pid, ps[k], name));
        }
        if exists|k: int| 0 <= k < ps.len() && captures_as(own_pid, #[trigger] ps[k], name) {
            let k = choose|k: int| 0 <= k < ps.len() && captures_as(own_pid, #[trigger] ps[k], name);
            if k < earlier.len() {
                assert(captures_as(own_pid, earlier[k], name));
            }
        }
    }
}

/// A process more adds its app behind the others, where it is not there yet.
pub proof fn law_holders_stand_in_order(own_pid: i32, ps: Seq<SoundProcess>, p: SoundProcess)
    ensures
        holders(own_pid, ps).is_prefix_of(holders(own_pid, ps.push(p))),
        holders(own_pid, ps.push(p)).len() <= holders(own_pid, ps).len() + 1,
{
    assert(ps.push(p).drop_last() == ps);
    let found = holders(own_pid, ps);
    assert(found.take(found.len() as int) == found);
    if let Some(n) = holder(own_pid, p) {
        assert(found.push(n).take(found.len() as int) == found);
    }
}

/// Whether a device is a microphone that goes by `name`.
pub open spec fn is_microphone(d: InputDevice, name: Seq<char>) -> bool {
    !d.is_virtual && (d.name matches Some(n) && n@ == name)
}

proof fn lemma_real_device(ds: Seq<InputDevice>)
    ensures
        match real_device(ds) {
            Some(name) => exists|i: int|
                0 <= i < ds.len() && is_microphone(#[trigger] ds[i], name) && forall|j: int|
                    0 <= j < i ==> (#[trigger] ds[j]).is_virtual || ds[j].name is None,
            None => forall|j: int| 0 <= j < ds.len() ==> (#[trigger] ds[j]).is_virtual || ds[j].name
                is None,
        },
    decreases ds.len(),
{
    if ds.len() > 0 {
        let rest = ds.drop_first();
        if ds[0].is_virtual || ds[0].name is None {
            lemma_real_device(rest);
            match real_device(rest) {
                Some(name) => {
                    let i = choose|i: int|
                        0 <= i < rest.len() && is_microphone(#[trigger] rest[i], name) && forall|
                            j: int,
                        |
                            0 <= j < i ==> (#[trigger] rest[j]).is_virtual || rest[j].name is None;
                    assert(is_microphone(ds[i + 1], name));
                    assert forall|j: int| 0 <= j < i + 1 implies (#[trigger] ds[j]).is_virtual
                        || ds[j].name is None by {
                        if j > 0 {
                            assert(rest[j - 1] == ds[j]);
                        }
                    }
                },
                None => {
                    assert forall|j: int| 0 <= j < ds.len() implies (#[trigger] ds[j]).is_virtual
                        || ds[j].name is None by {
                        if j > 0 {
                            assert(rest[j - 1] == ds[j]);
                        }
                    }
                },
            }
        } else {
            assert(is_microphone(ds[0], ds[0].name->0@));
        }
    }
}

/// Whether a process captures sound as a known app, and has a microphone to do it with.
pub open spec fn captures_by_microphone(own_pid: i32, p: SoundProcess) -> bool {
    (exists|name: Seq<char>| #[trigger] captures_as(own_pid, p, name)) && exists|i: int|
        0 <= i < p.devices@.len() && !(#[trigger] p.devices@[i]).is_virtual && p.devices@[i].name
            is Some
}

proof fn lemma_captures(own_pid: i32, p: SoundProcess)
    ensures
        holder(own_pid, p) is Some && real_device(p.devices@) is Some <==> captures_by_microphone(
            own_pid,
            p,
        ),
        holder(own_pid, p) matches Some(app) ==> captures_as(own_pid, p, app),
{
    lemma_real_device(p.devices@);
    if let Some(app) = holder(own_pid, p) {
        assert(captures_as(own_pid, p, app));
    }
}

/// The call's microphone is the first real one of the first meeting app that captures by
/// one: nothing virtual is ever taken for it, nor the device of an app that is not known.
pub proof fn law_call_microphone_is_real(own_pid: i32, ps: Seq<SoundProcess>)
    ensures
        match call_mic_spec(own_pid, ps) {
            Some((device, app)) => exists|k: int, i: int|
                {
                    &&& 0 <= k < ps.len()
                    &&& 0 <= i < ps[k].devices@.len()
                    &&& captures_as(own_pid, ps[k], app)
                    &&& is_microphone(#[trigger] ps[k].devices@[i], device)
                    &&& forall|j: int|
                        0 <= j < i ==> (#[trigger] ps[k].devices@[j]).is_virtual
                            || ps[k].devices@[j].name is None
                    &&& forall|l: int|
                        0 <= l < k ==> !captures_by_microphone(own_pid, #[trigger] ps[l])
                },
            None => forall|l: int|
                0 <= l < ps.len() ==> !captures_by_microphone(own_pid, #[trigger] ps[l]),
        },
    decreases ps.len(),
{
    if ps.len() > 0 {
        let rest = ps.drop_first();
        lemma_captures(own_pid, ps[0]);
        lemma_real_device(ps[0].devices@);
        if captures_by_microphone(own_pid, ps[0]) {
            let device = real_device(ps[0].devices@)->0;
            let i = choose|i: int|
                0 <= i < ps[0].devices@.len() && is_microphone(#[trigger] ps[0].devices@[i], device)
                    && forall|j: int|
                    0 <= j < i ==> (#[trigger] ps[0].devices@[j]).is_virtual
                        || ps[0].devices@[j].name is None;
            assert(is_microphone(ps[0].devices@[i], device));
        } else {
            law_call_microphone_is_real(own_pid, rest);
            match call_mic_spec(own_pid, rest) {
                Some((device, app)) => {
                    let (k, i) = choose|k: int, i: int|
                        {
                            &&& 0 <= k < rest.len()
                            &&& 0 <= i < rest[k].devices@.len()
                            &&& captures_as(own_pid, rest[k], app)
                            &&& is_microphone(#[trigger] rest[k].devices@[i], device)
                            &&& forall|j: int|
                                0 <= j < i ==> (#[trigger] rest[k].devices@[j]).is_virtual
                                    || rest[k].devices@[j].name is None
                            &&& forall|l: int|
                                0 <= l < k ==> !captures_by_microphone(own_pid, #[trigger] rest[l])
                        };
                    assert(rest[k] == ps[k + 1]);
                    assert(is_microphone(ps[k + 1].devices@[i], device));
                    assert forall|j: int| 0 <= j < i implies (#[trigger] ps[k
                        + 1].devices@[j]).is_virtual || ps[k + 1].devices@[j].name is None by {
                        assert(rest[k].devices@[j].is_virtual || rest[k].devices@[j].name is None);
                    }
                    assert forall|l: int| 0 <= l < k + 1 implies !captures_by_microphone(
                        own_pid,
                        #[trigger] ps[l],
                    ) by {
                        if l > 0 {
                            assert(rest[l - 1] == ps[l]);
                        }
                    }
                },
                None => {
                    assert forall|l: int| 0 <= l < ps.len() implies !captures_by_microphone(
                        own_pid,
                        #[trigger] ps[l],
                    ) by {
                        if l > 0 {
                            assert(rest[l - 1] == ps[l]);
                        }
                    }
                },
            }
        }
    }
}

/// A detector that has seen nothing.
pub open spec fn fresh() -> DetectorView {
    DetectorView { previous: Seq::empty(), last_prompt: None, call_end: None }
}

/// Whether a call starts at poll `n`: an app holds the microphone, and none did at the
/// poll before.
pub open spec fn starts_at(ps: Seq<Poll>, n: int) -> bool {
    ps[n].current.len() > 0 && (n == 0 || ps[n - 1].current.len() == 0)
}

/// Whether a call ends at poll `n`: no app holds the microphone, and one did at the poll
/// before.
pub open spec fn ends_at(ps: Seq<Poll>, n: int) -> bool {
    ps[n].current.len() == 0 && n > 0 && ps[n - 1].current.len() > 0
}

proof fn lemma_previous(ps: Seq<Poll>, n: int)
    requires
        0 <= n <= ps.len(),
    ensures
        n == 0 ==> before_poll(fresh(), ps, n) == fresh(),
        n > 0 ==> before_poll(fresh(), ps, n).previous == ps[n - 1].current,
{
    if n > 0 {
        lemma_next_poll(fresh(), ps, n - 1);
    } else {
        assert(ps.take(0).len() == 0);
    }
}

/// The time of the last offer that is remembered is that of an offer.
proof fn lemma_last_prompt(ps: Seq<Poll>, n: int)
    requires
        0 <= n <= ps.len(),
    ensures
        before_poll(fresh(), ps, n).last_prompt matches Some(t) ==> exists|m: int|
            0 <= m < n && (#[trigger] ps[m]).now == t && before_poll(fresh(), ps, m).step(
                ps[m],
            ).offer_start is Some,
    decreases n,
{
    lemma_previous(ps, n);
    if n > 0 {
        lemma_next_poll(fresh(), ps, n - 1);
        lemma_last_prompt(ps, n - 1);
        let b = before_poll(fresh(), ps, n - 1);
        if b.offers(ps[n - 1]) {
            assert(b.step(ps[n - 1]).offer_start is Some);
        }
    }
}

/// Every call is offered: at the poll at which a call starts while nothing is recorded,
/// its first app is offered wherever each offer before it was made at least five minutes
/// earlier, however long ago that is.
pub proof fn law_every_call_is_offered(ps: Seq<Poll>, n: int)
    requires
        0 <= n < ps.len(),
        starts_at(ps, n),
        ps[n].status != MeetingStatus::Recording,
        forall|m: int|
            0 <= m < n && before_poll(fresh(), ps, m).step(#[trigger] ps[m]).offer_start is Some
                ==> ps[n].now - ps[m].now >= 5 * 60 * 1000,
    ensures
        before_poll(fresh(), ps, n).step(ps[n]).offer_start == Some(ps[n].current[0]),
{
    lemma_previous(ps, n);
    lemma_last_prompt(ps, n);
    let b = before_poll(fresh(), ps, n);
    if let Some(t) = b.last_prompt {
        let m = choose|m: int|
            0 <= m < n && (#[trigger] ps[m]).now == t && before_poll(fresh(), ps, m).step(
                ps[m],
            ).offer_start is Some;
        assert(ps[n].now - ps[m].now >= 300_000);
    }
}

/// Nothing else is offered: an offer to record comes only where a call starts while
/// nothing is recorded, at least five minutes after every offer before it, and is for the
/// first app of the call.
pub proof fn law_only_calls_are_offered(ps: Seq<Poll>, n: int)
    requires
        in_time(ps),
        0 <= n < ps.len(),
        before_poll(fresh(), ps, n).step(ps[n]).offer_start is Some,
    ensures
        starts_at(ps, n),
        ps[n].status != MeetingStatus::Recording,
        before_poll(fresh(), ps, n).step(ps[n]).offer_start == Some(ps[n].current[0]),
        forall|m: int|
            0 <= m < n && before_poll(fresh(), ps, m).step(#[trigger] ps[m]).offer_start is Some
                ==> ps[n].now - ps[m].now >= 5 * 60 * 1000,
{
    lemma_previous(ps, n);
    assert forall|m: int|
        0 <= m < n && before_poll(fresh(), ps, m).step(#[trigger] ps[m]).offer_start is Some implies
        ps[n].now - ps[m].now >= 5 * 60 * 1000 by {
        law_offers_are_spaced(fresh(), ps, m, n);
    }
}

/// What is kept of a call begins where it starts and is let go where it ends, outside a
/// recording; and the offer to stop comes where a call ends during one, in the name of
/// the app that let go.
pub proof fn law_calls_are_followed(ps: Seq<Poll>, n: int)
    requires
        0 <= n < ps.len(),
    ensures
        ({
            let step = before_poll(fresh(), ps, n).step(ps[n]);
            let recording = ps[n].status == MeetingStatus::Recording;
            &&& step.start_standby == if starts_at(ps, n) && !recording {
                Some(ps[n].current[0])
            } else {
                None
            }
            &&& step.stop_standby == (ends_at(ps, n) && !recording)
            &&& step.offer_stop == if ends_at(ps, n) && recording {
                Some(ps[n - 1].current[0])
            } else {
                None
            }
        }),
{
    lemma_previous(ps, n);
}

/// The recording indicator comes back where a call that was missed comes back before its
/// recording stopped, and nowhere else.
pub proof fn law_indicator_comes_back(ps: Seq<Poll>, n: int)
    requires
        0 <= n < ps.len(),
    ensures
        before_poll(fresh(), ps, n).step(ps[n]).resume ==> ps[n].current.len() > 0 && ps[n].status
            == MeetingStatus::Recording && exists|m: int|
            #[trigger] offered_and_quiet(fresh(), ps, m, n),
        forall|m: int|
            #[trigger] offered_and_quiet(fresh(), ps, m, n) && ps[n].current.len() > 0
                && ps[n].status == MeetingStatus::Recording && (forall|j: int|
                m <= j < n ==> (#[trigger] ps[j]).now - ps[m].now < 20 * 1000) ==> before_poll(
                fresh(),
                ps,
                n,
            ).step(ps[n]).resume,
{
    if before_poll(fresh(), ps, n).call_end is Some {
        let m = lemma_wait_began_with_an_offer(fresh(), ps, n);
        assert(offered_and_quiet(fresh(), ps, m, n));
    }
    assert forall|m: int|
        #[trigger] offered_and_quiet(fresh(), ps, m, n) && ps[n].current.len() > 0 && ps[n].status
            == MeetingStatus::Recording && (forall|j: int|
            m <= j < n ==> (#[trigger] ps[j]).now - ps[m].now < 20 * 1000) implies before_poll(
        fresh(),
        ps,
        n,
    ).step(ps[n]).resume by {
        lemma_wait_goes_on(fresh(), ps, m, n);
    }
}

/// A recording stops by itself twenty seconds after its call ended, and no sooner.
pub proof fn law_recording_stops_after_twenty_seconds(ps: Seq<Poll>, m: int, n: int)
    requires
        offered_and_quiet(fresh(), ps, m, n + 1),
        m < n < ps.len(),
        forall|j: int| m <= j < n ==> (#[trigger] ps[j]).now - ps[m].now < 20 * 1000,
    ensures
        before_poll(fresh(), ps, n).step(ps[n]).auto_stop <==> ps[n].now - ps[m].now >= 20 * 1000,
{
    lemma_wait_goes_on(fresh(), ps, m, n);
    assert(ps[n].current.len() == 0 && ps[n].status == MeetingStatus::Recording);
}

} // verus!
