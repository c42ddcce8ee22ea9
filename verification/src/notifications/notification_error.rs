use vstd::prelude::*;

verus! {

/// What can go wrong in showing a desktop notification.
#[derive(Clone, Debug, PartialEq, Eq)]
pub enum NotificationError {
    CommandExecutionError(String),
}

} // verus!
