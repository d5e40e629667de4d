//! Colour comparisons used by the fill: exact equality and a per-channel
//! tolerance test.
use vstd::prelude::*;

verus! {

/// Absolute difference of two channel values.
pub open spec fn channel_diff(a: u8, b: u8) -> int {
    if a >= b {
        a - b
    } else {
        b - a
    }
}

/// Two colours are equal when each of their three channels is.
pub open spec fn same_color(c1: (u8, u8, u8), c2: (u8, u8, u8)) -> bool {
    c1.0 == c2.0 && c1.1 == c2.1 && c1.2 == c2.2
}

/// Two colours are similar when every channel differs by strictly less than
/// `tolerance`; a tolerance of zero makes nothing similar.
pub open spec fn similar(c1: (u8, u8, u8), c2: (u8, u8, u8), tolerance: u8) -> bool {
    channel_diff(c1.0, c2.0) < tolerance && channel_diff(c1.1, c2.1) < tolerance
        && channel_diff(c1.2, c2.2) < tolerance
}

/// Exact per-channel equality of two RGB colours.
pub fn match_colors(r1: u8, g1: u8, b1: u8, r2: u8, g2: u8, b2: u8) -> (r: bool)
    ensures
        r == same_color((r1, g1, b1), (r2, g2, b2)),
{
    r1 == r2 && g1 == g2 && b1 == b2
}

/// Whether each channel of the two colours differs by strictly less than
/// `tolerance`.
pub fn match_tolerance(r1: u8, g1: u8, b1: u8, r2: u8, g2: u8, b2: u8, tolerance: u8) -> (r: bool)
    ensures
        r == similar((r1, g1, b1), (r2, g2, b2), tolerance),
{
    let r = if r1 > r2 {
        r1 - r2
    } else {
        r2 - r1
    };
    let g = if g1 > g2 {
        g1 - g2
    } else {
        g2 - g1
    };
    let b = if b1 > b2 {
        b1 - b2
    } else {
        b2 - b1
    };
    r < tolerance && g < tolerance && b < tolerance
}

} // verus!
