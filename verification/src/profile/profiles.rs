use vstd::prelude::*;
use crate::profile::profile::Profile;

verus! {

/// The stored profiles and the one applied last, as listed to a user.
#[derive(Clone, Debug, PartialEq, Eq)]
pub struct Profiles {
    pub current_profile_id: Option<String>,
    pub profiles: Vec<Profile>,
}

} // verus!
