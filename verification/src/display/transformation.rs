use vstd::prelude::*;

verus! {

/// The eight output transformations that Hyprland knows, numbered by the
/// code Hyprland uses for them.
#[derive(Clone, Copy, Debug, PartialEq, Eq, Structural)]
pub enum Transformation {
    Normal,
    Rotate90,
    Rotate180,
    Rotate270,
    Flip,
    FlipRotate90,
    FlipRotate180,
    FlipRotate270,
}

/// The code of a transformation.
pub open spec fn spec_code(t: Transformation) -> u8 {
    match t {
        Transformation::Normal => 0,
        Transformation::Rotate90 => 1,
        Transformation::Rotate180 => 2,
        Transformation::Rotate270 => 3,
        Transformation::Flip => 4,
        Transformation::FlipRotate90 => 5,
        Transformation::FlipRotate180 => 6,
        Transformation::FlipRotate270 => 7,
    }
}

/// The transformation with a given code, if there is one.
pub open spec fn spec_from_code(code: u8) -> Option<Transformation> {
    if code == 0 {
        Some(Transformation::Normal)
    } else if code == 1 {
        Some(Transformation::Rotate90)
    } else if code == 2 {
        Some(Transformation::Rotate180)
    } else if code == 3 {
        Some(Transformation::Rotate270)
    } else if code == 4 {
        Some(Transformation::Flip)
    } else if code == 5 {
        Some(Transformation::FlipRotate90)
    } else if code == 6 {
        Some(Transformation::FlipRotate180)
    } else if code == 7 {
        Some(Transformation::FlipRotate270)
    } else {
        None
    }
}

impl Transformation {
    /// The numeric code of this transformation.
    pub fn code(&self) -> (c: u8)
        ensures
            c == spec_code(*self),
            c <= 7,
    {
        match self {
            Transformation::Normal => 0,
            Transformation::Rotate90 => 1,
            Transformation::Rotate180 => 2,
            Transformation::Rotate270 => 3,
            Transformation::Flip => 4,
            Transformation::FlipRotate90 => 5,
            Transformation::FlipRotate180 => 6,
            Transformation::FlipRotate270 => 7,
        }
    }

    /// The transformation with the given code; `None` for a code above 7.
    pub fn from_code(code: u8) -> (t: Option<Transformation>)
        ensures
            t == spec_from_code(code),
            t is None <==> code > 7,
    {
        match code {
            0 => Some(Transformation::Normal),
            1 => Some(Transformation::Rotate90),
            2 => Some(Transformation::Rotate180),
            3 => Some(Transformation::Rotate270),
            4 => Some(Transformation::Flip),
            5 => Some(Transformation::FlipRotate90),
            6 => Some(Transformation::FlipRotate180),
            7 => Some(Transformation::FlipRotate270),
            _ => None,
        }
    }

    /// The transformation that a stored code stands for: an unknown code
    /// reads as `Normal`.
    pub fn from_code_or_normal(code: u8) -> (t: Transformation)
        ensures
            code <= 7 ==> spec_from_code(code) == Some(t),
            code > 7 ==> t == Transformation::Normal,
    {
        match Transformation::from_code(code) {
            Some(t) => t,
            None => Transformation::Normal,
        }
    }
}

/// Decoding the code of a transformation gives the transformation back.
pub proof fn law_code_round_trip(t: Transformation)
    ensures
        spec_from_code(spec_code(t)) == Some(t),
{
}

/// Every code that decodes is the code of what it decodes to.
pub proof fn law_from_code_round_trip(code: u8)
    ensures
        spec_from_code(code) matches Some(t) ==> spec_code(t) == code,
{
}

} // verus!
