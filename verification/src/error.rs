use vstd::prelude::*;
use crate::profile::validation_error::ValidationError;

verus! {

/// What can go wrong in reading monitors or in keeping profiles.
#[derive(Clone, Debug, PartialEq, Eq)]
pub enum DataModuleError {
    FailedToGetMonitors,
    CommandExecutionError(String),
    CommandOutputParseError,
    EncodingError(&'static str),
    CurrentProfileNotSet,
    ProfileNotFound,
    NotEnoughProfiles,
    FailedToGetConfig,
    FailedToCreateConfig,
    FailedToSetConfig,
    ConfigIsNotSupported(ValidationError),
}

} // verus!
