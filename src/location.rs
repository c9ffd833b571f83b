use vstd::prelude::*;

verus! {

/// A position on an integer grid.
#[derive(Debug, Clone, Copy, Default, PartialEq, Eq, Structural)]
pub struct Point2D {
    pub x: i32,
    pub y: i32,
}

/// Square of the Euclidean distance between two points.
pub open spec fn squared_distance(a: Point2D, b: Point2D) -> int {
    (a.x - b.x) * (a.x - b.x) + (a.y - b.y) * (a.y - b.y)
}

/// `r` is the square root of `n`, rounded down.
pub open spec fn is_floor_sqrt(r: int, n: int) -> bool {
    0 <= r && r * r <= n < (r + 1) * (r + 1)
}

/// A kind of position with a distance between any two positions.
pub trait Location {
    /// The square of the distance from `self` to `second`.
    spec fn spec_squared_distance(&self, second: &Self) -> int;

    /// The distance from `self` to `second`, rounded down to an integer.
    fn distance(&self, second: &Self) -> (r: u64)
        ensures
            is_floor_sqrt(r as int, self.spec_squared_distance(second)),
    ;
}

impl Point2D {
    pub fn new(x: i32, y: i32) -> (r: Point2D)
        ensures
            r == (Point2D { x, y }),
    {
        Point2D { x, y }
    }
}

impl Location for Point2D {
    open spec fn spec_squared_distance(&self, second: &Point2D) -> int {
        squared_distance(*self, *second)
    }

    /// Euclidean distance to `second`, rounded down to an integer.
    fn distance(&self, second: &Point2D) -> (r: u64) {
        let dx: i64 = self.x as i64 - second.x as i64;
        let dy: i64 = self.y as i64 - second.y as i64;
        assert(dx * dx <= 0x1_0000_0000 * 0x1_0000_0000) by (nonlinear_arith)
            requires
                -0x1_0000_0000 <= dx <= 0x1_0000_0000,
        ;
        assert(dy * dy <= 0x1_0000_0000 * 0x1_0000_0000) by (nonlinear_arith)
            requires
                -0x1_0000_0000 <= dy <= 0x1_0000_0000,
        ;
        assert(dx * dx >= 0 && dy * dy >= 0) by (nonlinear_arith);
        let sq: u128 = (dx as i128 * dx as i128 + dy as i128 * dy as i128) as u128;
        floor_sqrt(sq)
    }
}

/// Integer square root by bisection.
fn floor_sqrt(n: u128) -> (r: u64)
    requires
        n <= 0x2_0000_0000_0000_0000,
    ensures
        is_floor_sqrt(r as int, n as int),
{
    let mut lo: u128 = 0;
    let mut hi: u128 = 0x2_0000_0000;
    assert(n < hi * hi) by (nonlinear_arith)
        requires
            hi == 0x2_0000_0000,
            n <= 0x2_0000_0000_0000_0000,
    ;
    while hi - lo > 1
        invariant
            lo < hi <= 0x2_0000_0000,
            lo * lo <= n,
            n < hi * hi,
        decreases hi - lo,
    {
        let mid: u128 = lo + (hi - lo) / 2;
        assert(mid * mid <= 0x4_0000_0000_0000_0000) by (nonlinear_arith)
            requires
                mid <= 0x2_0000_0000,
        ;
        if mid * mid <= n {
            lo = mid;
        } else {
            hi = mid;
        }
    }
    lo as u64
}

} // verus!
