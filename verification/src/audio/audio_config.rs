use vstd::prelude::*;

verus! {

/// The audio sink that a profile selects (by name prefix) and its volume in percent.
#[derive(Clone, Debug, PartialEq, Eq)]
pub struct AudioConfig {
    pub sink_name: String,
    pub volume: u8,
}

} // verus!
