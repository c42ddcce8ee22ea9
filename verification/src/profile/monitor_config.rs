use vstd::prelude::*;
use crate::display::size::Size;
use crate::float_value::F64Value;

verus! {

/// How a profile sets up one monitor.
#[derive(Clone, Debug, PartialEq, Eq)]
pub struct MonitorConfig {
    pub name: String,
    pub scale: F64Value,
    /// A transformation code (see `Transformation`).
    pub transformation: u8,
    pub resolution: Size,
    pub refresh_rate: F64Value,
    pub is_enabled: bool,
    pub mirror_of_name: Option<String>,
    pub current_position: Size,
}

} // verus!
