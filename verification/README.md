# Lark

Dictation and meeting transcription on your own machine.

The library decides; it never touches a device, a file or a window. It is verified
with [Verus](https://github.com/verus-lang/verus); the few calls into outside crates
(dates, JSON, edit distance) stand behind functions whose doc comments say what is
taken for granted.

- `segments`, `track`: speech on a track, and keeping a track in step with the clock
- `bleed`, `document`, `transcript`, `yaml`, `sidecar`, `notes`: from transcribed segments to
  the Markdown file, and back from an interrupted run
- `meeting`, `watchdog`, `detect`: the life of a recording, its microphone, and the
  calls around it
- `calendar`, `clock`, `reminder`: events, dates and the heads-up card
- `tray`, `menu`, `tray_i18n`, `overlay`, `paste_guard`: what the user sees
- `maintenance`, `folders`, `browser`: what is kept on disk
- `text`, `order`: texts and stable sorting

`app/` holds the desktop around it: files, threads and the command line, with sound,
windows and the calendar behind traits.
