//! Lark: local dictation and meeting transcription.

pub mod bleed;
pub mod browser;
pub mod calendar;
pub mod cli;
pub mod clock;
pub mod detect;
pub mod document;
pub mod folders;
pub mod maintenance;
pub mod meeting;
pub mod menu;
pub mod notes;
pub mod order;
pub mod overlay;
pub mod paste_guard;
pub mod platform;
pub mod reminder;
pub mod segments;
pub mod sidecar;
pub mod system_tap;
pub mod text;
pub mod track;
pub mod transcript;
pub mod tray;
pub mod tray_i18n;
pub mod watchdog;
pub mod yaml;
