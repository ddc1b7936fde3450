//! How an inexact result is rounded.
use vstd::prelude::*;

verus! {

/// A rule for rounding an inexact result to a representable one.
#[derive(Clone, Copy, Debug, PartialEq, Eq, Structural)]
pub enum RoundingMode {
    /// Toward zero.
    Down,
    /// Away from zero.
    Up,
    /// Toward negative infinity.
    Floor,
    /// Toward positive infinity.
    Ceiling,
    /// To the nearest value, ties to even.
    Nearest,
    /// No rounding allowed.
    Exact,
}

impl RoundingMode {
    /// The rounding mode that rounds `-x` as `self` rounds `x`, negated: floor and ceiling
    /// swap, the others stay.
    pub fn neg(self) -> (r: RoundingMode)
        ensures
            r == match self {
                RoundingMode::Floor => RoundingMode::Ceiling,
                RoundingMode::Ceiling => RoundingMode::Floor,
                m => m,
            },
    {
        match self {
            RoundingMode::Floor => RoundingMode::Ceiling,
            RoundingMode::Ceiling => RoundingMode::Floor,
            m => m,
        }
    }
}

} // verus!
