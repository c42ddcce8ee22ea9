use vstd::prelude::*;

verus! {

/// A width and a height in pixels (also used for a position).
#[derive(Clone, Copy, Debug, PartialEq, Eq, Structural)]
pub struct Size {
    pub width: u32,
    pub height: u32,
}

} // verus!
