use vstd::prelude::*;

verus! {

/// A workspace that a profile puts on a named monitor.
#[derive(Clone, Debug, PartialEq, Eq)]
pub struct WorkspaceConfig {
    pub id: u32,
    pub monitor_name: String,
}

} // verus!
