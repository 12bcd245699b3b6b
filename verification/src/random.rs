//! Random draws, taken from the thread-local generator of the `rand` crate.

use vstd::prelude::*;
use rand::Rng;
use crate::fixed::{Fixed, SCALE};

verus! {

/// `Rng::gen_range` on `rand::thread_rng()`: some raw count from `low` up to,
/// but not including, `high`. The call panics on an empty range. Which count
/// comes back is left open.
#[verifier::external_body]
fn gen_range(low: i64, high: i64) -> (r: i64)
    requires
        low < high,
    ensures
        low <= r < high,
{
    rand::thread_rng().gen_range(low..high)
}

/// Whether `d` can come out of `draw_unit`: zero or more, and less than one.
pub open spec fn is_unit_draw(d: Fixed) -> bool {
    0 <= d.raw < SCALE
}

/// A scalar drawn from zero up to, but not including, one.
pub fn draw_unit() -> (d: Fixed)
    ensures
        is_unit_draw(d),
{
    Fixed::from_raw(gen_range(0, SCALE))
}

/// A scalar drawn from `lo` up to, but not including, `hi`; `lo` itself
/// where nothing lies between them.
pub fn draw_between(lo: Fixed, hi: Fixed) -> (d: Fixed)
    ensures
        lo.raw < hi.raw ==> lo.raw <= d.raw < hi.raw,
        lo.raw >= hi.raw ==> d == lo,
{
    if lo.raw < hi.raw {
        Fixed::from_raw(gen_range(lo.raw, hi.raw))
    } else {
        lo
    }
}

/// One of the three axes, drawn at random: 0, 1 or 2.
pub fn draw_axis() -> (axis: u32)
    ensures
        axis < 3,
{
    gen_range(0, 3) as u32
}

} // verus!
