//! The command line.

use vstd::prelude::*;
use vstd::string::*;

use crate::text::same_text;

verus! {

/// What the command line asked for.
#[derive(Debug, Clone)]
pub struct CliArgs {
    /// Start with the main window hidden.
    pub start_hidden: bool,
    /// Disable the system tray icon.
    pub no_tray: bool,
    /// Toggle transcription on or off in the running instance.
    pub toggle_transcription: bool,
    /// Toggle transcription with post-processing in the running instance.
    pub toggle_post_process: bool,
    /// Cancel the current operation of the running instance.
    pub cancel: bool,
    /// Toggle meeting recording in the running instance.
    pub toggle_meeting: bool,
    /// Pick the microphone of the running meeting recording by device name;
    /// "auto" clears the pick.
    pub set_meeting_mic: Option<String>,
    /// Transcribe a saved meeting again from its tracks.
    pub retranscribe_meeting: Option<String>,
    /// How many minutes of a detected call to hold in memory.
    pub meeting_rewind: Option<u32>,
    /// Enable debug mode with verbose logging.
    pub debug: bool,
}

impl CliArgs {
    /// The microphone to pick for the running recording, as it would be chosen on the
    /// recording pill: "auto" stands for the empty name, which clears the pick.
    pub fn meeting_mic(&self) -> (r: Option<String>)
        ensures
            match self.set_meeting_mic {
                None => r is None,
                Some(device) => r matches Some(name) && name@ == if device@ == "auto"@ {
                    Seq::empty()
                } else {
                    device@
                },
            },
    {
        match &self.set_meeting_mic {
            None => None,
            Some(device) => if same_text(device.as_str(), "auto") {
                Some(String::new())
            } else {
                Some(device.clone())
            },
        }
    }
}

impl Default for CliArgs {
    /// Nothing asked for.
    fn default() -> (r: Self)
        ensures
            !r.start_hidden && !r.no_tray && !r.toggle_transcription && !r.toggle_post_process,
            !r.cancel && !r.toggle_meeting && !r.debug,
            r.set_meeting_mic is None && r.retranscribe_meeting is None,
            r.meeting_rewind is None,
    {
        CliArgs {
            start_hidden: false,
            no_tray: false,
            toggle_transcription: false,
            toggle_post_process: false,
            cancel: false,
            toggle_meeting: false,
            set_meeting_mic: None,
            retranscribe_meeting: None,
            meeting_rewind: None,
            debug: false,
        }
    }
}

} // verus!
