use vstd::prelude::*;

verus! {

/// A point (or a vector) on the integer grid of the map.
#[derive(Debug, Clone, Copy, PartialEq, Eq, Hash, Structural)]
pub struct Point {
    pub x: i32,
    pub y: i32,
    pub z: i32,
}

/// Whether an integer fits in an `i32`.
pub open spec fn fits_i32(v: int) -> bool {
    i32::MIN <= v <= i32::MAX
}

impl Point {
    pub fn new(x: i32, y: i32, z: i32) -> (p: Point)
        ensures
            p.x == x,
            p.y == y,
            p.z == z,
    {
        Point { x, y, z }
    }

    pub fn zeros() -> (p: Point)
        ensures
            p.x == 0,
            p.y == 0,
            p.z == 0,
    {
        Point { x: 0, y: 0, z: 0 }
    }

    /// Componentwise sum; each component of the sum must fit in an `i32`.
    pub fn add(self, other: Point) -> (p: Point)
        requires
            fits_i32(self.x + other.x),
            fits_i32(self.y + other.y),
            fits_i32(self.z + other.z),
        ensures
            p.x == self.x + other.x,
            p.y == self.y + other.y,
            p.z == self.z + other.z,
    {
        Point { x: self.x + other.x, y: self.y + other.y, z: self.z + other.z }
    }

    /// Componentwise difference; each component must fit in an `i32`.
    pub fn sub(self, other: Point) -> (p: Point)
        requires
            fits_i32(self.x - other.x),
            fits_i32(self.y - other.y),
            fits_i32(self.z - other.z),
        ensures
            p.x == self.x - other.x,
            p.y == self.y - other.y,
            p.z == self.z - other.z,
    {
        Point { x: self.x - other.x, y: self.y - other.y, z: self.z - other.z }
    }

    /// Whether two points are the same point.
    pub fn same(&self, other: &Point) -> (b: bool)
        ensures
            b == (*self == *other),
    {
        self.x == other.x && self.y == other.y && self.z == other.z
    }
}

} // verus!

verus! {

/// `a` divided by `b`, rounded down (toward negative infinity).
pub fn floor_div(a: i32, b: i32) -> (r: i32)
    requires
        b > 0,
    ensures
        r as int == (a as int) / (b as int),
{
    if a >= 0 {
        a / b
    } else {
        let q = (-(a + 1)) / b;
        proof {
            let na = -(a + 1);
            assert(q == na / (b as int));
            assert(0 <= na - q * b < b) by (nonlinear_arith)
                requires q == na / (b as int), na >= 0, b > 0;
            assert((a as int) == (-q - 1) * b + (b - 1 - (na - q * b))) by (nonlinear_arith)
                requires na == -(a + 1);
            vstd::arithmetic::div_mod::lemma_fundamental_div_mod_converse(
                a as int,
                b as int,
                -q - 1,
                b - 1 - (na - q * b),
            );
        }
        -q - 1
    }
}

} // verus!
