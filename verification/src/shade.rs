//! From escape counts to gray levels.

use vstd::prelude::*;

verus! {

/// The brightest gray level, given to points that never escape.
pub const BRIGHTEST: u8 = 255;

/// The iteration budget of a render that asks for none.
pub const DEFAULT_LIMIT: u32 = 255;

/// The gray level of a point, given the iteration at which it escaped (`None`
/// for a point that stayed bounded for the whole budget).
///
/// Members are brightest. A point that escaped at iteration `i` is `i` levels
/// darker, and black from iteration 255 on: the difference never wraps.
pub open spec fn intensity_of(escape: Option<u32>) -> u8 {
    match escape {
        None => 255u8,
        Some(i) => if i >= 255 {
            0u8
        } else {
            (255 - i) as u8
        },
    }
}

/// Computes the gray level of a point from its escape iteration.
pub fn intensity(escape: Option<u32>) -> (shade: u8)
    ensures
        shade == intensity_of(escape),
{
    match escape {
        None => BRIGHTEST,
        Some(i) => if i >= 255 {
            0
        } else {
            (255 - i) as u8
        },
    }
}

} // verus!
