//! The tray menu.

use vstd::prelude::*;
use vstd::string::*;

use crate::meeting::MeetingStatus;
use crate::platform::Platform;
use crate::tray::{version_label, version_text, TrayIconState};
use crate::tray_i18n::TrayStrings;

verus! {

/// One entry of the tray menu, as its contracts see it.
pub enum EntryView {
    Item { id: Seq<char>, label: Seq<char>, enabled: bool, accelerator: Option<Seq<char>> },
    Separator,
}

/// One entry of the tray menu.
pub enum MenuEntry {
    Item { id: &'static str, label: String, enabled: bool, accelerator: Option<&'static str> },
    Separator,
}

impl MenuEntry {
    pub open spec fn view(&self) -> EntryView {
        match *self {
            MenuEntry::Item { id, label, enabled, accelerator } => EntryView::Item {
                id: id@,
                label: label@,
                enabled,
                accelerator: match accelerator {
                    Some(a) => Some(a@),
                    None => None,
                },
            },
            MenuEntry::Separator => EntryView::Separator,
        }
    }
}

/// Entries by their views.
pub open spec fn entries_view(v: Seq<MenuEntry>) -> Seq<EntryView> {
    v.map_values(|e: MenuEntry| e.view())
}

/// What the menu shows.
pub struct MenuInput {
    pub platform: Platform,
    pub version: String,
    /// Whether this is a development build.
    pub dev: bool,
    pub meeting: MeetingStatus,
    /// Whether the transcription model is in memory.
    pub model_loaded: bool,
}

/// A plain item.
pub open spec fn item(id: Seq<char>, label: Seq<char>, enabled: bool) -> EntryView {
    EntryView::Item { id, label, enabled, accelerator: None }
}

/// The entry that starts or stops a recording; while one is processed it cannot
/// be used.
pub open spec fn meeting_item(status: MeetingStatus, strings: TrayStrings) -> EntryView {
    match status {
        MeetingStatus::Idle => item("meeting_toggle"@, strings.meeting_start@, true),
        MeetingStatus::Recording => item("meeting_toggle"@, strings.meeting_stop@, true),
        MeetingStatus::Processing => item("meeting_toggle"@, strings.meeting_processing@, false),
    }
}

/// The meeting entry, on the one system that has meetings.
pub open spec fn meeting_items(input: MenuInput, strings: TrayStrings) -> Seq<EntryView> {
    match input.platform {
        Platform::MacOs => seq![meeting_item(input.meeting, strings)],
        _ => Seq::empty(),
    }
}

/// The accelerator of an entry.
pub open spec fn accelerator(platform: Platform, mac: Seq<char>, other: Seq<char>) -> Option<
    Seq<char>,
> {
    match platform {
        Platform::MacOs => Some(mac),
        _ => Some(other),
    }
}

/// The entries at the end of the menu.
pub open spec fn last_entries(input: MenuInput, strings: TrayStrings) -> Seq<EntryView> {
    seq![
        EntryView::Separator,
        EntryView::Item {
            id: "settings"@,
            label: strings.settings@,
            enabled: true,
            accelerator: accelerator(input.platform, "Cmd+,"@, "Ctrl+,"@),
        },
        EntryView::Separator,
        EntryView::Item {
            id: "quit"@,
            label: strings.quit@,
            enabled: true,
            accelerator: accelerator(input.platform, "Cmd+Q"@, "Ctrl+Q"@),
        },
    ]
}

/// The entries near the top: while something is recorded or transcribed, an offer
/// to cancel.
pub open spec fn cancel_entries(state: TrayIconState, strings: TrayStrings) -> Seq<EntryView> {
    match state {
        TrayIconState::Idle => Seq::empty(),
        _ => seq![item("cancel"@, strings.cancel@, true), EntryView::Separator],
    }
}

/// The entry that frees the memory of the model, while nothing is recorded or
/// transcribed.
pub open spec fn model_entries(
    input: MenuInput,
    state: TrayIconState,
    strings: TrayStrings,
) -> Seq<EntryView> {
    match state {
        TrayIconState::Idle => seq![
            EntryView::Separator,
            item("unload_model"@, strings.unload_model@, input.model_loaded),
        ],
        _ => Seq::empty(),
    }
}

/// The entries of the tray menu.
pub open spec fn menu_entries(
    input: MenuInput,
    state: TrayIconState,
    strings: TrayStrings,
) -> Seq<EntryView> {
    seq![
        item("version"@, version_text(input.version@, input.dev), false),
        EntryView::Separator,
    ] + cancel_entries(state, strings) + seq![
        item("copy_last_transcript"@, strings.copy_last_transcript@, true),
    ] + meeting_items(input, strings) + model_entries(input, state, strings) + last_entries(
        input,
        strings,
    )
}

fn plain(id: &'static str, label: &str, enabled: bool) -> (r: MenuEntry)
    ensures
        r.view() == item(id@, label@, enabled),
{
    MenuEntry::Item { id, label: label.to_owned(), enabled, accelerator: None }
}

fn is_mac(platform: Platform) -> (r: bool)
    ensures
        r == (platform == Platform::MacOs),
{
    matches!(platform, Platform::MacOs)
}

fn with_key(
    id: &'static str,
    label: &str,
    platform: Platform,
    mac: &'static str,
    other: &'static str,
) -> (r: MenuEntry)
    ensures
        r.view() == (EntryView::Item {
            id: id@,
            label: label@,
            enabled: true,
            accelerator: accelerator(platform, mac@, other@),
        }),
{
    let key = if is_mac(platform) {
        mac
    } else {
        other
    };
    MenuEntry::Item { id, label: label.to_owned(), enabled: true, accelerator: Some(key) }
}

fn push_entry(out: &mut Vec<MenuEntry>, e: MenuEntry)
    ensures
        entries_view(final(out)@) == entries_view(old(out)@).push(e.view()),
{
    let ghost before = entries_view(out@);
    out.push(e);
    assert(entries_view(out@) == before.push(e.view()));
}

fn push_cancel(out: &mut Vec<MenuEntry>, state: TrayIconState, strings: &TrayStrings)
    ensures
        entries_view(final(out)@) == entries_view(old(out)@) + cancel_entries(state, *strings),
{
    let ghost before = entries_view(out@);
    match state {
        TrayIconState::Idle => {
            assert(before + cancel_entries(state, *strings) == before);
        },
        _ => {
            push_entry(out, plain("cancel", strings.cancel.as_str(), true));
            push_entry(out, MenuEntry::Separator);
            assert(entries_view(out@) == before + cancel_entries(state, *strings));
        },
    }
}

fn push_meeting(out: &mut Vec<MenuEntry>, input: &MenuInput, strings: &TrayStrings)
    ensures
        entries_view(final(out)@) == entries_view(old(out)@) + meeting_items(*input, *strings),
{
    let ghost before = entries_view(out@);
    if !is_mac(input.platform) {
        assert(before + meeting_items(*input, *strings) == before);
        return ;
    }
    let e = match input.meeting {
        MeetingStatus::Idle => plain("meeting_toggle", strings.meeting_start.as_str(), true),
        MeetingStatus::Recording => plain("meeting_toggle", strings.meeting_stop.as_str(), true),
        MeetingStatus::Processing => plain(
            "meeting_toggle",
            strings.meeting_processing.as_str(),
            false,
        ),
    };
    push_entry(out, e);
    assert(entries_view(out@) == before + meeting_items(*input, *strings));
}

fn push_model(
    out: &mut Vec<MenuEntry>,
    input: &MenuInput,
    state: TrayIconState,
    strings: &TrayStrings,
)
    ensures
        entries_view(final(out)@) == entries_view(old(out)@) + model_entries(
            *input,
            state,
            *strings,
        ),
{
    let ghost before = entries_view(out@);
    match state {
        TrayIconState::Idle => {
            push_entry(out, MenuEntry::Separator);
            push_entry(
                out,
                plain("unload_model", strings.unload_model.as_str(), input.model_loaded),
            );
            assert(entries_view(out@) == before + model_entries(*input, state, *strings));
        },
        _ => {
            assert(before + model_entries(*input, state, *strings) == before);
        },
    }
}

fn push_last(out: &mut Vec<MenuEntry>, input: &MenuInput, strings: &TrayStrings)
    ensures
        entries_view(final(out)@) == entries_view(old(out)@) + last_entries(*input, *strings),
{
    let ghost before = entries_view(out@);
    push_entry(out, MenuEntry::Separator);
    push_entry(
        out,
        with_key("settings", strings.settings.as_str(), input.platform, "Cmd+,", "Ctrl+,"),
    );
    push_entry(out, MenuEntry::Separator);
    push_entry(
        out,
        with_key("quit", strings.quit.as_str(), input.platform, "Cmd+Q", "Ctrl+Q"),
    );
    assert(entries_view(out@) == before + last_entries(*input, *strings));
}

/// The entries of the tray menu. While something is recorded or transcribed it
/// offers to cancel; otherwise it offers to unload the model.
pub fn update_tray_menu(input: &MenuInput, state: TrayIconState, strings: &TrayStrings) -> (r: Vec<
    MenuEntry,
>)
    ensures
        entries_view(r@) == menu_entries(*input, state, *strings),
{
    let mut out: Vec<MenuEntry> = Vec::new();
    let version = version_label(input.version.as_str(), input.dev);
    let ghost first = item("version"@, version@, false);
    push_entry(&mut out, plain("version", version.as_str(), false));
    push_entry(&mut out, MenuEntry::Separator);
    assert(entries_view(out@) == seq![first, EntryView::Separator]);
    push_cancel(&mut out, state, strings);
    let copy = plain("copy_last_transcript", strings.copy_last_transcript.as_str(), true);
    let ghost before = entries_view(out@);
    let ghost copied = copy.view();
    push_entry(&mut out, copy);
    assert(entries_view(out@) == before + seq![copied]);
    push_meeting(&mut out, input, strings);
    push_model(&mut out, input, state, strings);
    push_last(&mut out, input, strings);
    out
}

/// The menu always ends with the way out, which is never disabled.
pub proof fn law_menu_ends_with_quit(input: MenuInput, state: TrayIconState, strings: TrayStrings)
    ensures
        menu_entries(input, state, strings).last() matches EntryView::Item { id, enabled, .. } && id
            == "quit"@ && enabled,
{
    let e = menu_entries(input, state, strings);
    let last = last_entries(input, strings);
    assert(e[e.len() - 1] == last[last.len() - 1]);
}

/// There is one model and no updater: whatever the app does, every entry is one of
/// these, so that nothing offers to pick a model or to check for updates.
pub proof fn law_menu_offers_no_model_and_no_update(
    input: MenuInput,
    state: TrayIconState,
    strings: TrayStrings,
    k: int,
)
    requires
        0 <= k < menu_entries(input, state, strings).len(),
    ensures
        match menu_entries(input, state, strings)[k] {
            EntryView::Separator => true,
            EntryView::Item { id, .. } => id == "version"@ || id == "cancel"@ || id
                == "copy_last_transcript"@ || id == "meeting_toggle"@ || id == "unload_model"@ || id
                == "settings"@ || id == "quit"@,
        },
{
    let first = seq![
        item("version"@, version_text(input.version@, input.dev), false),
        EntryView::Separator,
    ];
    let a = first + cancel_entries(state, strings);
    let b = a + seq![item("copy_last_transcript"@, strings.copy_last_transcript@, true)];
    let c = b + meeting_items(input, strings);
    let d = c + model_entries(input, state, strings);
    let e = d + last_entries(input, strings);
    assert(e == menu_entries(input, state, strings));
    if k < first.len() {
        assert(e[k] == first[k]);
    } else if k < a.len() {
        assert(e[k] == cancel_entries(state, strings)[k - first.len()]);
    } else if k < b.len() {
        assert(e[k] == b[k]);
    } else if k < c.len() {
        assert(e[k] == meeting_items(input, strings)[k - b.len()]);
    } else if k < d.len() {
        assert(e[k] == model_entries(input, state, strings)[k - c.len()]);
    } else {
        assert(e[k] == last_entries(input, strings)[k - d.len()]);
    }
}

/// While nothing is recorded or transcribed the menu holds, in this order, the version,
/// the last transcript, the meeting on the one system that has meetings, the model to
/// unload, the settings and the way out.
pub proof fn law_idle_menu(input: MenuInput, strings: TrayStrings)
    ensures
        input.platform == Platform::MacOs ==> menu_entries(input, TrayIconState::Idle, strings)
            == seq![
            item("version"@, version_text(input.version@, input.dev), false),
            EntryView::Separator,
            item("copy_last_transcript"@, strings.copy_last_transcript@, true),
            meeting_item(input.meeting, strings),
            EntryView::Separator,
            item("unload_model"@, strings.unload_model@, input.model_loaded),
        ] + last_entries(input, strings),
        input.platform != Platform::MacOs ==> menu_entries(input, TrayIconState::Idle, strings)
            == seq![
            item("version"@, version_text(input.version@, input.dev), false),
            EntryView::Separator,
            item("copy_last_transcript"@, strings.copy_last_transcript@, true),
            EntryView::Separator,
            item("unload_model"@, strings.unload_model@, input.model_loaded),
        ] + last_entries(input, strings),
{
}

/// While something is recorded or transcribed the menu offers to cancel it, above the last
/// transcript, and does not offer to unload the model.
pub proof fn law_busy_menu(input: MenuInput, state: TrayIconState, strings: TrayStrings)
    requires
        state != TrayIconState::Idle,
    ensures
        input.platform == Platform::MacOs ==> menu_entries(input, state, strings) == seq![
            item("version"@, version_text(input.version@, input.dev), false),
            EntryView::Separator,
            item("cancel"@, strings.cancel@, true),
            EntryView::Separator,
            item("copy_last_transcript"@, strings.copy_last_transcript@, true),
            meeting_item(input.meeting, strings),
        ] + last_entries(input, strings),
        input.platform != Platform::MacOs ==> menu_entries(input, state, strings) == seq![
            item("version"@, version_text(input.version@, input.dev), false),
            EntryView::Separator,
            item("cancel"@, strings.cancel@, true),
            EntryView::Separator,
            item("copy_last_transcript"@, strings.copy_last_transcript@, true),
        ] + last_entries(input, strings),
{
}

/// The meeting entry says what it does: it starts a recording, stops the one under way,
/// and cannot be used while one is processed.
pub proof fn law_meeting_entry_says_what_it_does(strings: TrayStrings)
    ensures
        meeting_item(MeetingStatus::Idle, strings) == (EntryView::Item {
            id: "meeting_toggle"@,
            label: strings.meeting_start@,
            enabled: true,
            accelerator: None,
        }),
        meeting_item(MeetingStatus::Recording, strings) == (EntryView::Item {
            id: "meeting_toggle"@,
            label: strings.meeting_stop@,
            enabled: true,
            accelerator: None,
        }),
        meeting_item(MeetingStatus::Processing, strings) == (EntryView::Item {
            id: "meeting_toggle"@,
            label: strings.meeting_processing@,
            enabled: false,
            accelerator: None,
        }),
{
}

/// Every menu ends with the settings and the way out, by the keys of the system.
pub proof fn law_settings_and_quit_have_their_keys(input: MenuInput, strings: TrayStrings)
    ensures
        ({
            let mac = input.platform == Platform::MacOs;
            last_entries(input, strings) == seq![
                EntryView::Separator,
                EntryView::Item {
                    id: "settings"@,
                    label: strings.settings@,
                    enabled: true,
                    accelerator: Some(
                        if mac {
                            "Cmd+,"@
                        } else {
                            "Ctrl+,"@
                        },
                    ),
                },
                EntryView::Separator,
                EntryView::Item {
                    id: "quit"@,
                    label: strings.quit@,
                    enabled: true,
                    accelerator: Some(
                        if mac {
                            "Cmd+Q"@
                        } else {
                            "Ctrl+Q"@
                        },
                    ),
                },
            ]
        }),
        forall|id: Seq<char>, label: Seq<char>, enabled: bool| #[trigger]
            item(id, label, enabled) == (EntryView::Item { id, label, enabled, accelerator: None }),
{
}

} // verus!
