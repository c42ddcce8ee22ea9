use vstd::prelude::*;

verus! {

/// A floating-point number held as plain values: its IEEE 754 binary64 bit
/// pattern (`f64::to_bits`) and the text that `Display` writes for it.
#[derive(Clone, Debug, PartialEq, Eq)]
pub struct F64Value {
    pub bits: u64,
    pub text: String,
}

} // verus!
