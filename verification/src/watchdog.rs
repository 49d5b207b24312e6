//! Choosing the microphone of a recording, and keeping it alive.
//!
//! A headset can deliver pure digital silence after a failed handshake, so a
//! silent stream is restarted a few times. And a pinned microphone that was not
//! attached when the recording began is hunted for, and switched to the moment it
//! appears.

use vstd::prelude::*;

use crate::text::{first_at, law_first_place_is_found, position_of, str_view, text_view, views};

verus! {

/// How often the watchdog looks, in milliseconds.
pub const WATCH_INTERVAL_MS: u64 = 500;

/// A microphone without signal for this long, in milliseconds, is restarted.
pub const MIC_SILENT_RESTART_MS: u64 = 3_000;

/// How often a silent microphone is restarted at most.
pub const MAX_MIC_RESTARTS: u32 = 3;

/// How often the pinned microphone is looked for while another one is recorded,
/// in milliseconds.
pub const PIN_RECHECK_MS: u64 = 5_000;

/// Which microphones the settings name.
pub struct MicSettings {
    pub selected: Option<String>,
    /// The one to use while the lid is closed.
    pub clamshell: Option<String>,
}

impl MicSettings {
    /// The microphone that is pinned.
    pub open spec fn pin(self, lid_closed: bool) -> Option<Seq<char>> {
        let chosen = if lid_closed && self.clamshell is Some {
            self.clamshell
        } else {
            self.selected
        };
        match chosen {
            Some(name) => Some(name@),
            None => None,
        }
    }
}

/// Outcome of looking for the pinned microphone.
pub struct MicResolution {
    /// Which of the attached devices to open; `None` is the system default.
    pub device: Option<usize>,
    /// The name that was asked for.
    pub pinned: Option<String>,
    /// Whether the settings asked for it and no attached device has that name.
    pub pin_missed: bool,
}

/// Whether `r` is what comes of looking for the pinned microphone among the devices.
pub open spec fn is_pin_resolution(
    r: MicResolution,
    settings: MicSettings,
    lid_closed: bool,
    devices: Seq<String>,
) -> bool {
    match settings.pin(lid_closed) {
        None => r.device is None && r.pinned is None && !r.pin_missed,
        Some(name) => {
            &&& r.pinned matches Some(p) && p@ == name
            &&& r.pin_missed == (first_at(views(devices), name) is None)
            &&& match r.device {
                Some(k) => first_at(views(devices), name) == Some(k as int),
                None => first_at(views(devices), name) is None,
            }
        },
    }
}

/// Looks for the pinned microphone among the attached devices. A pin that matches
/// none of them is told apart from no pin at all, though both open the system
/// default.
pub fn resolve_mic_device(settings: &MicSettings, lid_closed: bool, devices: &Vec<String>) -> (r:
    MicResolution)
    ensures
        is_pin_resolution(r, *settings, lid_closed, devices@),
{
    let chosen = if lid_closed && settings.clamshell.is_some() {
        &settings.clamshell
    } else {
        &settings.selected
    };
    match chosen {
        None => MicResolution { device: None, pinned: None, pin_missed: false },
        Some(name) => {
            let device = position_of(devices, name.as_str());
            let pin_missed = device.is_none();
            MicResolution { device, pinned: Some(name.clone()), pin_missed }
        },
    }
}

/// Where a microphone is attached, if it is named and is.
pub open spec fn attached(name: Option<Seq<char>>, devices: Seq<String>) -> Option<int> {
    match name {
        Some(n) => first_at(views(devices), n),
        None => None,
    }
}

/// Whether `r` opens the device `k`, by the name that was asked for.
pub open spec fn opens_named(r: MicResolution, name: Option<Seq<char>>, k: int) -> bool {
    &&& r.device matches Some(d) && d == k
    &&& text_view(r.pinned) == name
    &&& !r.pin_missed
}

fn find_named(name: Option<&str>, devices: &Vec<String>) -> (r: Option<MicResolution>)
    ensures
        match r {
            Some(found) => attached(str_view(name), devices@) is Some && opens_named(
                found,
                str_view(name),
                attached(str_view(name), devices@)->0,
            ),
            None => attached(str_view(name), devices@) is None,
        },
{
    match name {
        Some(n) => match position_of(devices, n) {
            Some(k) => Some(
                MicResolution { device: Some(k), pinned: Some(n.to_owned()), pin_missed: false },
            ),
            None => None,
        },
        None => None,
    }
}

/// The microphone to record: the one picked by hand, else the one that the call uses,
/// each where it is attached; else the pinned one, else the system default.
pub fn choose_mic(
    manual: Option<&str>,
    call: Option<&str>,
    settings: &MicSettings,
    lid_closed: bool,
    devices: &Vec<String>,
) -> (r: MicResolution)
    ensures
        match (attached(str_view(manual), devices@), attached(str_view(call), devices@)) {
            (Some(k), _) => opens_named(r, str_view(manual), k),
            (None, Some(k)) => opens_named(r, str_view(call), k),
            (None, None) => is_pin_resolution(r, *settings, lid_closed, devices@),
        },
        r.device matches Some(d) ==> d < devices@.len() && (r.pinned matches Some(name)
            && devices@[d as int]@ == name@),
        forall|k: int|
            0 <= k < devices@.len() && str_view(manual) == Some((#[trigger] devices@[k])@)
                ==> r.device is Some && text_view(r.pinned) == str_view(manual),
        forall|k: int|
            0 <= k < devices@.len() && str_view(call) == Some((#[trigger] devices@[k])@) && (forall|
                j: int,
            |
                0 <= j < devices@.len() ==> str_view(manual) != Some((#[trigger] devices@[j])@))
                ==> r.device is Some && text_view(r.pinned) == str_view(call),
{
    proof {
        lemma_attached(str_view(manual), devices@);
        lemma_attached(str_view(call), devices@);
        lemma_attached(settings.pin(lid_closed), devices@);
    }
    if let Some(r) = find_named(manual, devices) {
        return r;
    }
    if let Some(r) = find_named(call, devices) {
        return r;
    }
    resolve_mic_device(settings, lid_closed, devices)
}

/// The open microphone stream of a recording.
#[derive(Clone, Copy, Debug, PartialEq, Eq, Structural)]
pub struct MicStream {
    /// When it was last opened, in milliseconds since the recording began.
    pub last_restart_ms: u64,
    /// How often it was restarted since a device was chosen.
    pub restarts: u32,
    /// Whether it is a fallback because the pinned microphone was not attached.
    pub pin_missed: bool,
}

/// What the recording indicator shows of the microphone.
#[derive(Clone, Copy, Debug, PartialEq, Eq, Structural)]
pub struct MicStatus {
    pub flowing: bool,
    pub pin_missed: bool,
}

impl MicStream {
    /// Whether the restart budget is kept.
    pub open spec fn valid(self) -> bool {
        self.restarts <= MAX_MIC_RESTARTS
    }

    /// A stream as a recording opens it.
    pub fn new(pin_missed: bool) -> (r: Self)
        ensures
            r == (MicStream { last_restart_ms: 0, restarts: 0, pin_missed }),
            r.valid(),
    {
        MicStream { last_restart_ms: 0, restarts: 0, pin_missed }
    }

    /// How long there has been no signal, in milliseconds, counted from the last
    /// signal or the last restart.
    pub open spec fn silence(self, now_ms: u64, flow_last_ms: u64) -> int {
        let last = if flow_last_ms < self.last_restart_ms {
            self.last_restart_ms
        } else {
            flow_last_ms
        };
        if now_ms < last {
            0
        } else {
            now_ms - last
        }
    }

    /// How long there has been no signal, in milliseconds.
    pub fn silent_ms(&self, now_ms: u64, flow_last_ms: u64) -> (r: u64)
        ensures
            r == self.silence(now_ms, flow_last_ms),
    {
        let last: u64 = if flow_last_ms < self.last_restart_ms {
            self.last_restart_ms
        } else {
            flow_last_ms
        };
        if now_ms < last {
            0
        } else {
            now_ms - last
        }
    }
}

/// What the watchdog remembers from one look to the next.
#[derive(Clone, Copy, Debug, PartialEq, Eq, Structural)]
pub struct Watchdog {
    pub was_flowing: bool,
    pub last_pin_check_ms: u64,
}

/// What one look of the watchdog asks for.
#[derive(Clone, Copy, Debug, PartialEq, Eq, Structural)]
pub struct Look {
    /// What to show on the indicator, where it changed.
    pub notice: Option<MicStatus>,
    pub silent_ms: u64,
    /// Whether to look for the pinned microphone now.
    pub recheck_pin: bool,
}

/// What to do with the microphone.
#[derive(Clone, Copy, Debug, PartialEq, Eq, Structural)]
pub enum MicAction {
    Nothing,
    /// Close the stream and open the microphone that was found or picked.
    Switch,
    /// Close the stream and open whatever the settings resolve to.
    Restart,
}

/// What to do with a microphone that has been silent for `silent_ms`; `wanted` tells
/// whether another one was just found or picked.
pub open spec fn mic_action(mic: MicStream, silent_ms: int, wanted: bool) -> MicAction {
    if wanted {
        MicAction::Switch
    } else if silent_ms < MIC_SILENT_RESTART_MS || mic.restarts >= MAX_MIC_RESTARTS {
        MicAction::Nothing
    } else {
        MicAction::Restart
    }
}

/// Whether a look asked for the pinned microphone and it was found attached, or is
/// pinned no longer.
pub open spec fn pin_found(look: Look, pin: Option<&MicResolution>) -> bool {
    look.recheck_pin && (pin matches Some(p) && !p.pin_missed)
}

/// What to do with a microphone after a look; `pin` is what came of looking for the
/// pinned one, where the look asked for that, and `repicked` tells whether a microphone
/// was picked by hand since the last look. A pinned microphone that was found, and one
/// that was picked, is switched to however many restarts were spent.
pub fn next_mic_action(
    mic: &MicStream,
    look: &Look,
    pin: Option<&MicResolution>,
    repicked: bool,
) -> (r: MicAction)
    ensures
        r == mic_action(*mic, look.silent_ms as int, repicked || pin_found(*look, pin)),
{
    let missed = match pin {
        Some(p) => p.pin_missed,
        None => true,
    };
    if repicked || (look.recheck_pin && !missed) {
        MicAction::Switch
    } else if look.silent_ms < MIC_SILENT_RESTART_MS || mic.restarts >= MAX_MIC_RESTARTS {
        MicAction::Nothing
    } else {
        MicAction::Restart
    }
}

impl Watchdog {
    /// A watchdog as a recording begins.
    pub fn new() -> (r: Self)
        ensures
            r == (Watchdog { was_flowing: true, last_pin_check_ms: 0 }),
    {
        Watchdog { was_flowing: true, last_pin_check_ms: 0 }
    }

    /// Whether it is time to look for the pinned microphone.
    pub open spec fn pin_due(self, mic: MicStream, now_ms: u64) -> bool {
        mic.pin_missed && (if now_ms < self.last_pin_check_ms {
            0
        } else {
            now_ms - self.last_pin_check_ms
        }) >= PIN_RECHECK_MS
    }

    /// One look: silence is shown the moment it crosses the threshold, and no
    /// longer once audio returns; while a fallback is recorded the pinned
    /// microphone is looked for every few seconds.
    pub fn look(&mut self, mic: &MicStream, now_ms: u64, flow_last_ms: u64) -> (r: Look)
        ensures
            r.silent_ms == mic.silence(now_ms, flow_last_ms),
            final(self).was_flowing == (r.silent_ms < MIC_SILENT_RESTART_MS),
            r.notice == if final(self).was_flowing != old(self).was_flowing {
                Some(
                    (MicStatus { flowing: final(self).was_flowing, pin_missed: mic.pin_missed }),
                )
            } else {
                None
            },
            r.recheck_pin == old(self).pin_due(*mic, now_ms),
            final(self).last_pin_check_ms == if r.recheck_pin {
                now_ms
            } else {
                old(self).last_pin_check_ms
            },
    {
        let silent_ms: u64 = mic.silent_ms(now_ms, flow_last_ms);
        let flowing = silent_ms < MIC_SILENT_RESTART_MS;
        let notice = if flowing != self.was_flowing {
            self.was_flowing = flowing;
            Some(MicStatus { flowing, pin_missed: mic.pin_missed })
        } else {
            None
        };
        let since: u64 = if now_ms < self.last_pin_check_ms {
            0
        } else {
            now_ms - self.last_pin_check_ms
        };
        let recheck_pin = mic.pin_missed && since >= PIN_RECHECK_MS;
        if recheck_pin {
            self.last_pin_check_ms = now_ms;
        }
        Look { notice, silent_ms, recheck_pin }
    }
}

/// The stream after an attempt to switch to another microphone: a different device
/// gets a fresh restart budget. `pin_missed` tells whether the device opened stands in
/// for a pinned one that is not attached.
pub open spec fn after_switch(mic: MicStream, opened: bool, pin_missed: bool, now_ms: u64) -> MicStream {
    if opened {
        MicStream { last_restart_ms: now_ms, restarts: 0, pin_missed }
    } else {
        mic
    }
}

/// The stream after a restart, which counts whether or not it opened.
pub open spec fn after_restart(mic: MicStream, pin_missed: bool, now_ms: u64) -> MicStream {
    MicStream { last_restart_ms: now_ms, restarts: (mic.restarts + 1) as u32, pin_missed }
}

impl MicStream {
    /// Takes note of an attempt to switch to another microphone, and says what to
    /// show.
    pub fn switched(&mut self, opened: bool, pin_missed: bool, now_ms: u64) -> (r: Option<MicStatus>)
        ensures
            *final(self) == after_switch(*old(self), opened, pin_missed, now_ms),
            r == if opened {
                Some((MicStatus { flowing: true, pin_missed }))
            } else {
                None
            },
    {
        if !opened {
            return None;
        }
        self.pin_missed = pin_missed;
        self.restarts = 0;
        self.last_restart_ms = now_ms;
        Some(MicStatus { flowing: true, pin_missed })
    }

    /// Takes note of a restart, and says whether it was the last one allowed.
    pub fn restarted(&mut self, pin_missed: bool, now_ms: u64) -> (r: bool)
        requires
            old(self).restarts < MAX_MIC_RESTARTS,
        ensures
            *final(self) == after_restart(*old(self), pin_missed, now_ms),
            final(self).valid(),
            r == (final(self).restarts == MAX_MIC_RESTARTS),
    {
        self.pin_missed = pin_missed;
        self.restarts += 1;
        self.last_restart_ms = now_ms;
        self.restarts == MAX_MIC_RESTARTS
    }
}

/// One turn of the watchdog, as its laws see it: how long the stream was silent,
/// whether another microphone was found or picked, whether it opened, whether what was
/// opened stands in for a missing pin, and when the turn ended.
pub struct Turn {
    pub silent_ms: int,
    pub wanted: bool,
    pub opened: bool,
    pub pin_missed: bool,
    pub now_ms: u64,
}

/// The stream after one turn.
pub open spec fn after_turn(mic: MicStream, t: Turn) -> MicStream {
    match mic_action(mic, t.silent_ms, t.wanted) {
        MicAction::Nothing => mic,
        MicAction::Switch => after_switch(mic, t.opened, t.pin_missed, t.now_ms),
        MicAction::Restart => after_restart(mic, t.pin_missed, t.now_ms),
    }
}

/// The stream after all the turns.
pub open spec fn after_turns(mic: MicStream, turns: Seq<Turn>) -> MicStream
    decreases turns.len(),
{
    if turns.len() == 0 {
        mic
    } else {
        after_turn(after_turns(mic, turns.drop_last()), turns.last())
    }
}

/// How many of the turns restarted the stream.
pub open spec fn restarts_in(mic: MicStream, turns: Seq<Turn>) -> nat
    decreases turns.len(),
{
    if turns.len() == 0 {
        0
    } else {
        let before = after_turns(mic, turns.drop_last());
        restarts_in(mic, turns.drop_last()) + if mic_action(
            before,
            turns.last().silent_ms,
            turns.last().wanted,
        ) == MicAction::Restart {
            1nat
        } else {
            0nat
        }
    }
}

/// However the turns go, the restart budget is kept; and without a switch to a
/// different device, the restarts are those that the stream counts, so that there
/// are at most three in all.
pub proof fn law_restarts_are_bounded(mic: MicStream, turns: Seq<Turn>)
    requires
        mic.valid(),
    ensures
        after_turns(mic, turns).valid(),
        (forall|k: int| 0 <= k < turns.len() ==> !((#[trigger] turns[k]).wanted && turns[k].opened))
            ==> restarts_in(mic, turns) == after_turns(mic, turns).restarts - mic.restarts
            && restarts_in(mic, turns) <= MAX_MIC_RESTARTS,
    decreases turns.len(),
{
    if turns.len() > 0 {
        let earlier = turns.drop_last();
        law_restarts_are_bounded(mic, earlier);
        assert(turns[turns.len() - 1] == turns.last());
        if forall|k: int| 0 <= k < turns.len() ==> !((#[trigger] turns[k]).wanted && turns[k].opened) {
            assert forall|k: int| 0 <= k < earlier.len() implies !((#[trigger] earlier[k]).wanted
                && earlier[k].opened) by {
                assert(earlier[k] == turns[k]);
            }
        }
    }
}

/// A microphone that is asked for is not kept waiting by a spent restart budget: once
/// the pinned one is found, or another one picked, and it opens, it is recorded, with
/// the whole budget again.
pub proof fn law_wanted_mic_is_taken(mic: MicStream, t: Turn)
    requires
        t.wanted,
        t.opened,
    ensures
        after_turn(mic, t).restarts == 0,
        after_turn(mic, t).pin_missed == t.pin_missed,
        after_turn(mic, t).last_restart_ms == t.now_ms,
{
}

/// A microphone is found where a device has its name, at the first that has it.
proof fn lemma_attached(name: Option<Seq<char>>, devices: Seq<String>)
    ensures
        match attached(name, devices) {
            Some(k) => 0 <= k < devices.len() && name == Some(devices[k]@) && forall|j: int|
                0 <= j < k ==> name != Some((#[trigger] devices[j])@),
            None => forall|j: int| 0 <= j < devices.len() ==> name != Some((#[trigger] devices[j])@),
        },
{
    if let Some(n) = name {
        law_first_place_is_found(views(devices), n);
        assert forall|j: int| 0 <= j < devices.len() implies #[trigger] views(devices)[j]
            == devices[j]@ by {}
        match first_at(views(devices), n) {
            Some(k) => {
                assert forall|j: int| 0 <= j < k implies name != Some((#[trigger] devices[j])@) by {
                    assert(views(devices)[j] != n);
                }
            },
            None => {
                assert forall|j: int| 0 <= j < devices.len() implies name != Some(
                    (#[trigger] devices[j])@,
                ) by {
                    assert(views(devices)[j] != n);
                }
            },
        }
    }
}

/// What the settings pin is the microphone for a closed lid where the lid is closed and
/// there is one, and the selected one otherwise.
pub proof fn law_closed_lid_has_its_own_pin(settings: MicSettings)
    ensures
        settings.pin(false) == text_view(settings.selected),
        settings.clamshell is Some ==> settings.pin(true) == text_view(settings.clamshell),
        settings.clamshell is None ==> settings.pin(true) == text_view(settings.selected),
{
}

/// A pin opens the first device of its name; it is missed exactly where no device has the
/// name, and then the default is opened; without a pin the default is opened and nothing
/// is missed.
pub proof fn law_pins_are_found_or_missed(
    r: MicResolution,
    settings: MicSettings,
    lid_closed: bool,
    devices: Seq<String>,
)
    requires
        is_pin_resolution(r, settings, lid_closed, devices),
    ensures
        r.pin_missed <==> settings.pin(lid_closed) is Some && forall|j: int|
            0 <= j < devices.len() ==> settings.pin(lid_closed) != Some((#[trigger] devices[j])@),
        text_view(r.pinned) == settings.pin(lid_closed),
        r.device matches Some(k) ==> k < devices.len() && settings.pin(lid_closed) == Some(
            devices[k as int]@,
        ) && forall|j: int|
            0 <= j < k ==> settings.pin(lid_closed) != Some((#[trigger] devices[j])@),
        r.device is None <==> settings.pin(lid_closed) is None || r.pin_missed,
{
    lemma_attached(settings.pin(lid_closed), devices);
}

/// Silence is counted from the last signal or the last restart, whichever came later.
pub proof fn law_silence_counts_from_the_later(mic: MicStream, now_ms: u64, flow_last_ms: u64)
    ensures
        mic.silence(now_ms, flow_last_ms) >= 0,
        now_ms >= flow_last_ms && now_ms >= mic.last_restart_ms ==> mic.silence(now_ms, flow_last_ms)
            <= now_ms - flow_last_ms && mic.silence(now_ms, flow_last_ms) <= now_ms
            - mic.last_restart_ms && (mic.silence(now_ms, flow_last_ms) == now_ms - flow_last_ms
            || mic.silence(now_ms, flow_last_ms) == now_ms - mic.last_restart_ms),
        now_ms <= flow_last_ms || now_ms <= mic.last_restart_ms ==> mic.silence(
            now_ms,
            flow_last_ms,
        ) == 0,
{
}

/// A microphone that is asked for is switched to; otherwise one that was silent for three
/// seconds is restarted, up to three times, and any other is left alone.
pub proof fn law_microphone_is_restarted_when_silent(mic: MicStream, silent_ms: int, wanted: bool)
    ensures
        mic_action(mic, silent_ms, wanted) == MicAction::Switch <==> wanted,
        mic_action(mic, silent_ms, wanted) == MicAction::Restart <==> !wanted && silent_ms >= 3000
            && mic.restarts < 3,
{
}

/// A missed pin is looked for every five seconds, and only a missed one.
pub proof fn law_missed_pin_is_looked_for(dog: Watchdog, mic: MicStream, now_ms: u64)
    ensures
        dog.pin_due(mic, now_ms) <==> mic.pin_missed && now_ms - dog.last_pin_check_ms >= 5000,
{
}

/// The pinned microphone counts as found where it was looked for and was not missed.
pub proof fn law_pin_is_found_where_looked_for(look: Look, pin: MicResolution)
    ensures
        !pin_found(look, None),
        pin_found(look, Some(&pin)) <==> look.recheck_pin && !pin.pin_missed,
{
}

/// A switch that opened is a new stream with the whole budget, and one that did not changes
/// nothing; a restart counts, whatever came of it.
pub proof fn law_streams_after_a_turn(mic: MicStream, opened: bool, pin_missed: bool, now_ms: u64)
    requires
        mic.restarts < 3,
    ensures
        opened ==> after_switch(mic, opened, pin_missed, now_ms).restarts == 0 && after_switch(
            mic,
            opened,
            pin_missed,
            now_ms,
        ).last_restart_ms == now_ms && after_switch(mic, opened, pin_missed, now_ms).pin_missed
            == pin_missed,
        !opened ==> after_switch(mic, opened, pin_missed, now_ms) == mic,
        after_restart(mic, pin_missed, now_ms).restarts == mic.restarts + 1,
        after_restart(mic, pin_missed, now_ms).last_restart_ms == now_ms,
        after_restart(mic, pin_missed, now_ms).pin_missed == pin_missed,
{
}

} // verus!
