//! Points of the two-dimensional integer lattice.

use vstd::prelude::*;

verus! {

/// A lattice point, or the corner of an axis-aligned box.
#[derive(Clone, Copy, Debug, PartialEq, Eq, Structural)]
pub struct Vec2 {
    pub x: i32,
    pub y: i32,
}

/// The square of the Euclidean distance between `a` and `b`.
pub open spec fn dist2(a: Vec2, b: Vec2) -> int {
    (a.x - b.x) * (a.x - b.x) + (a.y - b.y) * (a.y - b.y)
}

/// Whether `p` lies in the open square of half-width `rad` centred on `q`:
/// both coordinates differ by strictly less than `rad`.
pub open spec fn in_square(p: Vec2, q: Vec2, rad: int) -> bool {
    &&& q.x - rad < p.x < q.x + rad
    &&& q.y - rad < p.y < q.y + rad
}

/// A square does not overflow once its root is known to fit in 33 bits.
pub proof fn lemma_square_bound(d: int)
    requires
        -0x1_0000_0000 < d < 0x1_0000_0000,
    ensures
        0 <= d * d < 0x1_0000_0000_0000_0000,
{
    assert(0 <= d * d < 0x1_0000_0000_0000_0000) by (nonlinear_arith)
        requires
            -0x1_0000_0000 < d < 0x1_0000_0000,
    ;
}

impl Vec2 {
    /// The coordinate along `axis`: `x` where `axis` is even, `y` where it is
    /// odd. A node splits along the axis of its depth, so a depth can stand
    /// for its axis.
    pub open spec fn coord(self, axis: int) -> int {
        if axis % 2 == 0 {
            self.x as int
        } else {
            self.y as int
        }
    }

    pub fn new(x: i32, y: i32) -> (p: Vec2)
        ensures
            p == (Vec2 { x, y }),
    {
        Vec2 { x, y }
    }

    /// The squared Euclidean distance to `other`, exact.
    pub fn squared_distance(self, other: Vec2) -> (d: i128)
        ensures
            d == dist2(self, other),
    {
        let dx: i128 = self.x as i128 - other.x as i128;
        let dy: i128 = self.y as i128 - other.y as i128;
        proof {
            lemma_square_bound(dx as int);
            lemma_square_bound(dy as int);
        }
        dx * dx + dy * dy
    }

    /// Whether `self` lies in the open square of half-width `rad` around `center`.
    pub fn is_in_square(self, center: Vec2, rad: i64) -> (b: bool)
        ensures
            b == in_square(self, center, rad as int),
    {
        if rad <= 0 {
            return false;
        }
        let dx: i64 = self.x as i64 - center.x as i64;
        let dy: i64 = self.y as i64 - center.y as i64;
        -rad < dx && dx < rad && -rad < dy && dy < rad
    }
}

} // verus!
