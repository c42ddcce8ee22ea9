use vstd::prelude::*;
use crate::audio::audio_config::AudioConfig;
use crate::profile::monitor_config::MonitorConfig;
use crate::profile::workspace_config::WorkspaceConfig;

verus! {

/// A named set of monitor, workspace and audio settings.
#[derive(Clone, Debug, PartialEq, Eq)]
pub struct Profile {
    pub id: Option<String>,
    pub name: String,
    pub monitors: Vec<MonitorConfig>,
    pub workspaces: Vec<WorkspaceConfig>,
    pub move_all_windows_to_monitor: Option<String>,
    pub focus_monitor_name: Option<String>,
    pub focus_workspace_id: Option<u8>,
    pub audio_sink: Option<AudioConfig>,
    /// The workspaces to place; where absent, the workspaces that exist.
    pub persistent_workspace_ids: Option<Vec<u32>>,
    /// Where a workspace without a mapping of its own goes.
    pub workspaces_fallback_monitor_name: Option<String>,
}

} // verus!
