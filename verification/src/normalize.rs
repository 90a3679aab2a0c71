//! Scaling counts to display intensities.
//!
//! The mapping itself works on floating point and is left to the caller; this
//! module names the strategies.

use vstd::prelude::*;

verus! {

/// How raw counts are mapped to the unit interval before coloring.
#[derive(Clone, Copy, Debug, PartialEq)]
pub enum Scale {
    /// `ln(1 + v) / ln(1 + max)` (stable for heavy tails).
    Log1p,
    /// CantorDust-style fixed ramp: `min + min(v * step, 255 - min)`, then `/ 255`
    /// (`min = 10`, `step = 5`), keeping zero cells black.
    CantorDust,
    /// `v / max`.
    Linear,
}

impl Scale {
    /// The name of the strategy as it is shown to users.
    pub open spec fn name(self) -> Seq<char> {
        match self {
            Scale::Log1p => "log1p"@,
            Scale::CantorDust => "cantordust"@,
            Scale::Linear => "linear"@,
        }
    }

    /// `"log1p"`, `"cantordust"` or `"linear"`.
    pub fn to_string(&self) -> (s: String)
        ensures
            s@ == self.name(),
    {
        match self {
            Scale::Log1p => "log1p".to_owned(),
            Scale::CantorDust => "cantordust".to_owned(),
            Scale::Linear => "linear".to_owned(),
        }
    }
}

/// The CantorDust channel of a non-zero count `v`: `10 + min(v * 5, 245)`; the
/// scale's intensity is this channel divided by 255.
pub fn cantordust_channel(v: u32) -> (c: u32)
    ensures
        c == 10 + if v * 5 < 245 {
            v * 5
        } else {
            245
        },
{
    let min = 10u32;
    let delta = if v < 49 {
        v * 5
    } else {
        255 - min
    };
    min + delta
}

} // verus!
