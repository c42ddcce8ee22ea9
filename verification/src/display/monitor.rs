use vstd::prelude::*;
use crate::display::mode::Mode;
use crate::display::size::Size;
use crate::float_value::F64Value;

verus! {

/// A monitor as Hyprland reports it.
pub struct Monitor {
    pub id: u32,
    pub name: String,
    pub model: String,
    pub description: String,
    pub scale: F64Value,
    /// A transformation code (see `Transformation`).
    pub transformation: u8,
    pub resolution: Size,
    pub refresh_rate: F64Value,
    pub is_enabled: bool,
    pub mirror_of_name: Option<String>,
    pub current_position: Size,
    pub modes: Vec<Mode>,
}

} // verus!
