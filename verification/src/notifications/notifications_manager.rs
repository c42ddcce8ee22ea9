use vstd::prelude::*;

verus! {

/// Shows desktop notifications through `notify-send`.
#[derive(Clone, Copy, Debug, PartialEq, Eq, Structural)]
pub struct NotificationsManager;

impl NotificationsManager {
    /// The notifications manager.
    pub fn new() -> (m: NotificationsManager)
        ensures
            m == NotificationsManager,
    {
        NotificationsManager
    }
}

} // verus!
