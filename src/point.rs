use vstd::prelude::*;

verus! {

/// Number of coordinates of every point.
pub const DIM: usize = 3;

/// A point with three integer coordinates.
#[derive(Clone, Copy, Debug, PartialEq, Eq, Structural)]
pub struct Point {
    pub x: i32,
    pub y: i32,
    pub z: i32,
}

/// Coordinate `d` of `p` (0 is x, 1 is y, 2 is z).
pub open spec fn coord(p: Point, d: int) -> int {
    if d == 0 {
        p.x as int
    } else if d == 1 {
        p.y as int
    } else {
        p.z as int
    }
}

/// Squared Euclidean distance between two points.
pub open spec fn sq_dist(p: Point, q: Point) -> int {
    (coord(p, 0) - coord(q, 0)) * (coord(p, 0) - coord(q, 0))
        + (coord(p, 1) - coord(q, 1)) * (coord(p, 1) - coord(q, 1))
        + (coord(p, 2) - coord(q, 2)) * (coord(p, 2) - coord(q, 2))
}

impl Point {
    pub fn new(x: i32, y: i32, z: i32) -> (r: Point)
        ensures
            r.x == x,
            r.y == y,
            r.z == z,
    {
        Point { x, y, z }
    }

    /// The coordinates in order x, y, z.
    pub fn as_slice(&self) -> (r: Vec<i32>)
        ensures
            r@.len() == DIM,
            forall|d: int| 0 <= d < DIM ==> r@[d] as int == coord(*self, d),
    {
        vec![self.x, self.y, self.z]
    }

    /// Coordinate `d` of this point.
    pub fn get(&self, d: usize) -> (r: i32)
        requires
            d < DIM,
        ensures
            r as int == coord(*self, d as int),
    {
        if d == 0 {
            self.x
        } else if d == 1 {
            self.y
        } else {
            self.z
        }
    }
}

/// Square of one coordinate difference.
pub(crate) fn sq_diff(a: i32, b: i32) -> (r: u128)
    ensures
        r as int == (a as int - b as int) * (a as int - b as int),
{
    let d: i64 = a as i64 - b as i64;
    let w: i128 = d as i128;
    assert(w * w >= 0 && w * w <= 0x1_0000_0000_0000_0000_0000_0000_0000) by (nonlinear_arith)
        requires
            -0x1_0000_0000 <= w <= 0x1_0000_0000,
    ;
    (w * w) as u128
}

/// Squared Euclidean distance between `p` and `q`.
pub fn squared_distance(p: &Point, q: &Point) -> (r: u128)
    ensures
        r as int == sq_dist(*p, *q),
{
    let a = sq_diff(p.x, q.x);
    let b = sq_diff(p.y, q.y);
    let c = sq_diff(p.z, q.z);
    assert(a <= 0x1_0000_0000_0000_0000 && b <= 0x1_0000_0000_0000_0000 && c <= 0x1_0000_0000_0000_0000) by (nonlinear_arith)
        requires
            a as int == (p.x as int - q.x as int) * (p.x as int - q.x as int),
            b as int == (p.y as int - q.y as int) * (p.y as int - q.y as int),
            c as int == (p.z as int - q.z as int) * (p.z as int - q.z as int),
            -0x8000_0000 <= p.x <= 0x7fff_ffff, -0x8000_0000 <= q.x <= 0x7fff_ffff,
            -0x8000_0000 <= p.y <= 0x7fff_ffff, -0x8000_0000 <= q.y <= 0x7fff_ffff,
            -0x8000_0000 <= p.z <= 0x7fff_ffff, -0x8000_0000 <= q.z <= 0x7fff_ffff,
    ;
    a + b + c
}

} // verus!
