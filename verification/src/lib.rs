//! Monitor, workspace and audio profiles for a Hyprland desktop: the rules that
//! decide what a profile means, stated and proved with Verus.

pub mod audio;
pub mod cli;
pub mod dispatcher;
pub mod display;
pub mod error;
pub mod float_bits;
pub mod float_value;
pub mod notifications;
pub mod profile;
pub mod text;
