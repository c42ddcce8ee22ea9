use vstd::prelude::*;

verus! {

/// The command line: an optional dry-run switch and one command.
#[derive(Clone, Debug, PartialEq, Eq)]
pub struct Cli {
    /// Print the commands instead of running them.
    pub dry_run: bool,
    pub command: Option<Command>,
}

/// What the program is asked to do.
#[derive(Clone, Debug, PartialEq, Eq)]
pub enum Command {
    /// List the monitors.
    Monitors,
    /// List the stored profiles.
    Profiles,
    /// Store a profile given as JSON.
    AddProfile { profile_json: String },
    /// Remove a stored profile.
    RemoveProfile { profile_id: String },
    /// Show the profile applied last.
    Current,
    /// Apply the profile applied last again.
    Restore,
    /// Apply a stored profile.
    Apply { profile_id: String },
    /// Apply the profile after the current one.
    ApplyNext,
}

} // verus!
