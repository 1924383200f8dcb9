//! Axis-aligned boxes given by their two corners.

use vstd::prelude::*;
use crate::vec2::Vec2;

verus! {

pub open spec fn max2(a: int, b: int) -> int {
    if a >= b {
        a
    } else {
        b
    }
}

/// Whether `p` lies in the closed box with corners `min0` and `max0`.
pub open spec fn contains(min0: Vec2, max0: Vec2, p: Vec2) -> bool {
    &&& min0.x <= p.x <= max0.x
    &&& min0.y <= p.y <= max0.y
}

/// The signed distance from `pos_in` to the box with corners `min0` and
/// `max0`: over both axes, the larger of the distances by which `pos_in`
/// lies beyond the box. It is zero or negative exactly when the box
/// contains `pos_in`.
pub open spec fn signed_dist(pos_in: Vec2, min0: Vec2, max0: Vec2) -> int {
    max2(
        max2(pos_in.x - max0.x, min0.x - pos_in.x),
        max2(pos_in.y - max0.y, min0.y - pos_in.y),
    )
}

pub fn signed_distance(pos_in: Vec2, min0: Vec2, max0: Vec2) -> (d: i64)
    ensures
        d == signed_dist(pos_in, min0, max0),
        d <= 0 <==> contains(min0, max0, pos_in),
{
    let x_hi: i64 = pos_in.x as i64 - max0.x as i64;
    let x_lo: i64 = min0.x as i64 - pos_in.x as i64;
    let y_hi: i64 = pos_in.y as i64 - max0.y as i64;
    let y_lo: i64 = min0.y as i64 - pos_in.y as i64;
    let x_dist: i64 = if x_hi >= x_lo { x_hi } else { x_lo };
    let y_dist: i64 = if y_hi >= y_lo { y_hi } else { y_lo };
    if x_dist >= y_dist {
        x_dist
    } else {
        y_dist
    }
}

} // verus!
