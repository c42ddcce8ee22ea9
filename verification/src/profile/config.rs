use vstd::prelude::*;
use crate::profile::profile::Profile;

verus! {

/// The stored profiles and the one applied last.
#[derive(Clone, Debug, PartialEq, Eq)]
pub struct Config {
    pub current_profile_id: Option<String>,
    pub profiles: Vec<Profile>,
}

impl Config {
    /// The configuration that a missing config file stands for.
    pub fn empty() -> (c: Config)
        ensures
            c.current_profile_id is None,
            c.profiles@.len() == 0,
    {
        Config { profiles: Vec::new(), current_profile_id: None }
    }
}

} // verus!
