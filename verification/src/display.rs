pub mod hyprland_display_manager;
pub mod mode;
pub mod monitor;
pub mod size;
pub mod transformation;

use vstd::prelude::*;
use crate::display::hyprland_display_manager::HyprlandManager;

verus! {

/// The display manager of this desktop: Hyprland, through `hyprctl`.
pub fn get_display_manager(dry_run: bool) -> (m: HyprlandManager)
    ensures
        m.dry_run == dry_run,
{
    HyprlandManager { dry_run }
}

} // verus!
