//! Guards the auto-paste against a moving target.
//!
//! Transcription takes a second or two, and in that gap it is easy to click into
//! another app. So the app that was frontmost when the recording stopped is
//! remembered, and looked at again at paste time: the same app gets the paste,
//! another one does not, and the text waits here for the user to copy it.
//!
//! Fails open: an unknown app before or after always gets the paste.

use vstd::prelude::*;

verus! {

/// What the guard remembers between a recording and its paste.
pub struct PasteGuard {
    /// Process id of the app that was frontmost when the last dictation stopped;
    /// 0 when unknown.
    pub expected_target_pid: i32,
    /// Text that was withheld from the paste and waits to be copied.
    pub pending: Option<String>,
}

impl PasteGuard {
    /// A guard that knows no target and withholds nothing.
    pub fn new() -> (r: Self)
        ensures
            r.expected_target_pid == 0,
            r.pending is None,
    {
        PasteGuard { expected_target_pid: 0, pending: None }
    }
}

/// The process id of the frontmost app, from what the window server reports:
/// nothing where it reports no app, and where the id is not positive.
pub open spec fn frontmost(reported: Option<i32>) -> Option<i32> {
    match reported {
        Some(pid) if pid > 0 => Some(pid),
        _ => None,
    }
}

/// The process id of the frontmost app.
pub fn frontmost_app_pid(reported: Option<i32>) -> (r: Option<i32>)
    ensures
        r == frontmost(reported),
{
    match reported {
        Some(pid) => if pid <= 0 {
            None
        } else {
            Some(pid)
        },
        None => None,
    }
}

/// Whether the paste target is known to have changed.
pub open spec fn changed(expected: i32, reported: Option<i32>) -> bool {
    match frontmost(reported) {
        Some(current) => expected != 0 && current != expected,
        None => false,
    }
}

/// Records the app that the user is dictating into, when a recording stops.
pub fn remember_target(guard: &mut PasteGuard, reported: Option<i32>)
    ensures
        final(guard).expected_target_pid == (match frontmost(reported) {
            Some(pid) => pid,
            None => 0,
        }),
        final(guard).pending == old(guard).pending,
{
    guard.expected_target_pid =
    match frontmost_app_pid(reported) {
        Some(pid) => pid,
        None => 0,
    };
}

/// Whether the user is known to have moved to another app since the recording
/// stopped.
pub fn target_changed(guard: &PasteGuard, reported: Option<i32>) -> (r: bool)
    ensures
        r == changed(guard.expected_target_pid, reported),
{
    let expected: i32 = guard.expected_target_pid;
    if expected == 0 {
        return false;
    }
    match frontmost_app_pid(reported) {
        Some(current) => current != expected,
        None => false,
    }
}

/// Holds text that was not pasted, until the user copies it or a new dictation
/// replaces it.
pub fn set_pending(guard: &mut PasteGuard, text: String)
    ensures
        final(guard).pending == Some(text),
        final(guard).expected_target_pid == old(guard).expected_target_pid,
{
    guard.pending = Some(text);
}

/// Hands out the text that was held, and holds it no longer.
pub fn take_pending(guard: &mut PasteGuard) -> (r: Option<String>)
    ensures
        r == old(guard).pending,
        final(guard).pending is None,
        final(guard).expected_target_pid == old(guard).expected_target_pid,
{
    let text = guard.pending.take();
    text
}

/// Drops the text that was held.
pub fn clear_pending(guard: &mut PasteGuard)
    ensures
        final(guard).pending is None,
        final(guard).expected_target_pid == old(guard).expected_target_pid,
{
    guard.pending = None;
}

/// The guard fails open: with no app known before, or none known after, the
/// target has not changed. With both known, it has changed exactly when they
/// differ.
pub proof fn law_fails_open(before: Option<i32>, after: Option<i32>)
    ensures
        ({
            let expected = match frontmost(before) {
                Some(pid) => pid,
                None => 0,
            };
            match (frontmost(before), frontmost(after)) {
                (Some(b), Some(a)) => changed(expected, after) == (a != b),
                _ => !changed(expected, after),
            }
        }),
{
}

/// Only a positive process id is one, and the target has changed exactly where two are
/// known and differ.
pub proof fn law_only_a_known_move_counts(expected: i32, pid: i32)
    ensures
        frontmost(Some(pid)) == if pid > 0 {
            Some(pid)
        } else {
            None
        },
        frontmost(None) is None,
        changed(expected, Some(pid)) <==> expected != 0 && pid > 0 && pid != expected,
        !changed(expected, None),
{
}

} // verus!
