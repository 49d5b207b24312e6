//! Where and when the overlay pill is shown.
//!
//! Window geometry is floating point and stays with the windows; here are the
//! decisions about it.

use vstd::prelude::*;

use crate::platform::Platform;
use crate::text::{ascii_lower, ascii_lower_spec, same_text, trim, trim_spec};

verus! {

/// A move within this long after one that the app made itself, in milliseconds, is
/// the app's own.
pub const PROGRAMMATIC_MOVE_MS: u64 = 600;

/// A dragged window's place is saved once it has been still for this long, in
/// milliseconds.
pub const DRAG_SETTLE_MS: u64 = 400;

/// The window is hidden this long after its fade-out begins, in milliseconds.
pub const FADE_OUT_MS: u64 = 300;

/// Where the settings want the overlay.
#[derive(Clone, Copy, Debug, PartialEq, Eq, Structural)]
pub enum OverlayPosition {
    Top,
    Bottom,
    Off,
}

/// Whether the overlay is shown at all.
pub fn overlay_shown(position: OverlayPosition) -> (r: bool)
    ensures
        r == (position != OverlayPosition::Off),
{
    !matches!(position, OverlayPosition::Off)
}

/// Whether the overlay window is made. Where windows are anchored and not placed,
/// no place has to be known for it.
pub fn creates_overlay(platform: Platform, has_place: bool) -> (r: bool)
    ensures
        r == (platform == Platform::Linux || has_place),
{
    matches!(platform, Platform::Linux) || has_place
}

/// What the overlay's place is reckoned from.
#[derive(Clone, Copy, Debug, PartialEq, Eq, Structural)]
pub enum Placement {
    /// Where the user dragged it, kept on the screen.
    Dragged,
    /// Below the top edge.
    BelowTop,
    /// Above the bottom edge.
    AboveBottom,
}

/// What the overlay's place is reckoned from: a place that the user dragged it to
/// wins over the settings.
pub fn placement(dragged: bool, position: OverlayPosition) -> (r: Placement)
    ensures
        r == if dragged {
            Placement::Dragged
        } else if position == OverlayPosition::Top {
            Placement::BelowTop
        } else {
            Placement::AboveBottom
        },
{
    if dragged {
        Placement::Dragged
    } else {
        match position {
            OverlayPosition::Top => Placement::BelowTop,
            _ => Placement::AboveBottom,
        }
    }
}

/// Which edges a layer-shell window is anchored to: top and bottom.
pub fn layer_anchors(position: OverlayPosition) -> (r: (bool, bool))
    ensures
        r.0 == (position == OverlayPosition::Top),
        r.1 == !r.0,
{
    match position {
        OverlayPosition::Top => (true, false),
        _ => (false, true),
    }
}

/// Whether a text says no: empty, `0`, `false`, `no` or `off`.
pub open spec fn says_no(s: Seq<char>) -> bool {
    let v = ascii_lower_spec(trim_spec(s));
    v == ""@ || v == "0"@ || v == "false"@ || v == "no"@ || v == "off"@
}

/// Whether an environment variable is set, and to anything but a no.
pub fn env_flag_enabled(value: Option<&str>) -> (r: bool)
    ensures
        r == match value {
            Some(v) => !says_no(v@),
            None => false,
        },
{
    match value {
        Some(v) => {
            let low = ascii_lower(trim(v));
            let s = low.as_str();
            !(same_text(s, "") || same_text(s, "0") || same_text(s, "false") || same_text(s, "no")
                || same_text(s, "off"))
        },
        None => false,
    }
}

/// Whether the layer shell is used: it is not switched off, the compositor has
/// it, and there is a window for it.
pub fn uses_layer_shell(switched_off: bool, supported: bool, has_window: bool) -> (r: bool)
    ensures
        r == (!switched_off && supported && has_window),
{
    !switched_off && supported && has_window
}

/// Whether the Copy button got shown: the overlay is on, its window is there,
/// could be shown and could be told. Where it did not, the text is pasted as
/// usual and not swallowed.
pub fn copy_ready_shown(
    position: OverlayPosition,
    has_window: bool,
    shown: bool,
    told: bool,
) -> (r: bool)
    ensures
        r == (position != OverlayPosition::Off && has_window && shown && told),
{
    overlay_shown(position) && has_window && shown && told
}

/// A rectangle on the desktop: its corner and its size.
#[derive(Clone, Copy, Debug, PartialEq, Eq, Structural)]
pub struct Monitor {
    pub x: i32,
    pub y: i32,
    pub width: u32,
    pub height: u32,
}

impl Monitor {
    /// Whether the far edges can be reckoned that decide about a point.
    pub open spec fn reckonable(self, p: (i32, i32)) -> bool {
        &&& self.x <= p.0 ==> i32::MIN <= self.x + (self.width as i32) <= i32::MAX
        &&& self.x <= p.0 < self.x + (self.width as i32) && self.y <= p.1 ==> i32::MIN <= self.y + (
        self.height as i32) <= i32::MAX
    }

    /// Whether a point lies on it.
    pub open spec fn holds(self, p: (i32, i32)) -> bool {
        &&& self.x <= p.0 < self.x + (self.width as i32)
        &&& self.y <= p.1 < self.y + (self.height as i32)
    }
}

/// Whether the mouse is on a monitor.
pub fn is_mouse_within_monitor(mouse: (i32, i32), monitor: &Monitor) -> (r: bool)
    requires
        monitor.reckonable(mouse),
    ensures
        r == monitor.holds(mouse),
{
    let width: i32 = monitor.width as i32;
    let height: i32 = monitor.height as i32;
    mouse.0 >= monitor.x && mouse.0 < monitor.x + width && mouse.1 >= monitor.y && mouse.1
        < monitor.y + height
}

/// The first of the monitors that the mouse is on; `None` where the primary one
/// has to do.
pub fn get_monitor_with_cursor(mouse: Option<(i32, i32)>, monitors: &Vec<Monitor>) -> (r: Option<
    usize,
>)
    requires
        mouse matches Some(p) ==> forall|k: int|
            0 <= k < monitors@.len() ==> (#[trigger] monitors@[k]).reckonable(p),
    ensures
        match (r, mouse) {
            (Some(i), Some(p)) => i < monitors@.len() && monitors@[i as int].holds(p) && forall|
                k: int,
            |
                0 <= k < i ==> !(#[trigger] monitors@[k]).holds(p),
            (Some(_), None) => false,
            (None, Some(p)) => forall|k: int|
                0 <= k < monitors@.len() ==> !(#[trigger] monitors@[k]).holds(p),
            (None, None) => true,
        },
{
    let p = match mouse {
        Some(p) => p,
        None => {
            return None;
        },
    };
    let mut i: usize = 0;
    while i < monitors.len()
        invariant
            i <= monitors@.len(),
            mouse == Some(p),
            forall|k: int| 0 <= k < monitors@.len() ==> (#[trigger] monitors@[k]).reckonable(p),
            forall|k: int| 0 <= k < i ==> !(#[trigger] monitors@[k]).holds(p),
        decreases monitors@.len() - i,
    {
        if is_mouse_within_monitor(p, &monitors[i]) {
            return Some(i);
        }
        i += 1;
    }
    None
}

/// Tells the user's drags of the overlay from the app's own moves, and the last
/// of a stream of moves from the others.
#[derive(Clone, Copy, Debug, PartialEq, Eq, Structural)]
pub struct DragTracker {
    /// When the app last moved the window, in milliseconds.
    pub last_own_move: Option<u64>,
    /// How many drags there were.
    pub generation: u64,
}

/// Whether a move at `now` is the app's own.
pub open spec fn own_move(last: Option<u64>, now: u64) -> bool {
    match last {
        Some(t) => now < t || now - t < PROGRAMMATIC_MOVE_MS,
        None => false,
    }
}

impl DragTracker {
    pub fn new() -> (r: Self)
        ensures
            r == (DragTracker { last_own_move: None, generation: 0 }),
    {
        DragTracker { last_own_move: None, generation: 0 }
    }

    /// The app is about to move the window.
    pub fn moving(&mut self, now: u64)
        ensures
            final(self).last_own_move == Some(now),
            final(self).generation == old(self).generation,
    {
        self.last_own_move = Some(now);
    }

    /// The window moved. For a drag, the number to ask `settled` with once the
    /// window has been still.
    pub fn moved(&mut self, now: u64) -> (r: Option<u64>)
        ensures
            final(self).last_own_move == old(self).last_own_move,
            match r {
                Some(n) => !own_move(old(self).last_own_move, now) && n == final(self).generation
                    && n == old(self).generation.wrapping_add(1),
                None => own_move(old(self).last_own_move, now) && *final(self) == *old(self),
            },
    {
        if let Some(t) = self.last_own_move {
            if now < t || now - t < PROGRAMMATIC_MOVE_MS {
                return None;
            }
        }
        self.generation = self.generation.wrapping_add(1);
        Some(self.generation)
    }

    /// Whether the drag with this number was the last one, so that its place is
    /// saved.
    pub fn settled(&self, number: u64) -> (r: bool)
        ensures
            r == (self.generation == number),
    {
        self.generation == number
    }
}

/// The number of the last drag, `more` drags after the one with this number.
pub open spec fn number_after(number: u64, more: nat) -> u64
    decreases more,
{
    if more == 0 {
        number
    } else {
        number_after(number, (more - 1) as nat).wrapping_add(1)
    }
}

proof fn lemma_number_after(number: u64, more: nat)
    requires
        more <= u64::MAX,
    ensures
        number_after(number, more) == if number + more <= u64::MAX {
            number + more
        } else {
            number + more - u64::MAX - 1
        },
    decreases more,
{
    if more > 0 {
        lemma_number_after(number, (more - 1) as nat);
    }
}

/// Of a stream of moves only the last is saved: once more drags have been counted,
/// however many that the number can tell apart, the earlier one is not the last.
pub proof fn law_only_the_last_drag_is_saved(number: u64, more: nat)
    requires
        0 < more <= u64::MAX,
    ensures
        number_after(number, more) != number,
{
    lemma_number_after(number, more);
}

/// A switch is off where it says nothing, or a no in any capitals, with or without white
/// space around it; anything else switches it on.
pub proof fn law_only_a_no_says_no(s: Seq<char>)
    ensures
        ({
            let v = ascii_lower_spec(trim_spec(s));
            says_no(s) <==> {
                ||| v.len() == 0
                ||| v == seq!['0']
                ||| v == seq!['n', 'o']
                ||| v == seq!['o', 'f', 'f']
                ||| v == seq!['f', 'a', 'l', 's', 'e']
            }
        }),
{
    reveal_strlit("");
    reveal_strlit("0");
    reveal_strlit("no");
    reveal_strlit("off");
    reveal_strlit("false");
    assert("0"@ == seq!['0']);
    assert("no"@ == seq!['n', 'o']);
    assert("off"@ == seq!['o', 'f', 'f']);
    assert("false"@ == seq!['f', 'a', 'l', 's', 'e']);
    let v = ascii_lower_spec(trim_spec(s));
    if v.len() == 0 {
        assert(v == ""@);
    }
}

/// A move is the app's own for 600 milliseconds after it moved the window, and the user's
/// from then on.
pub proof fn law_own_moves_are_over_soon(moved_at: u64, now: u64)
    requires
        moved_at <= now,
    ensures
        own_move(Some(moved_at), now) <==> now - moved_at < 600,
        !own_move(None, now),
{
}

/// A monitor holds the points from its corner on, up to its far edges and without them.
/// The monitors are those whose size a signed number holds.
pub proof fn law_monitor_ends_before_its_far_edges(m: Monitor, x: i32, y: i32)
    requires
        m.width <= i32::MAX && m.height <= i32::MAX,
    ensures
        m.holds((x, y)) <==> 0 <= x - m.x < m.width && 0 <= y - m.y < m.height,
{
}

} // verus!
