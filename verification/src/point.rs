//! Points and vectors with integer coordinates.

use vstd::prelude::*;
use vstd::std_specs::cmp::PartialEqSpecImpl;
use crate::{located, CheckRange2, CheckRange3, Intersects};

verus! {

/// A point of the plane.
#[derive(Clone, Copy, Debug)]
pub struct Point2 {
    pub x: i32,
    pub y: i32,
}

/// A point of space.
#[derive(Clone, Copy, Debug)]
pub struct Point3 {
    pub x: i32,
    pub y: i32,
    pub z: i32,
}

/// A displacement in the plane.
#[derive(Clone, Copy, Debug, PartialEq, Eq, Structural)]
pub struct Vector2 {
    pub x: i32,
    pub y: i32,
}

/// A displacement in space.
#[derive(Clone, Copy, Debug, PartialEq, Eq, Structural)]
pub struct Vector3 {
    pub x: i32,
    pub y: i32,
    pub z: i32,
}

impl PartialEq for Point2 {
    fn eq(&self, other: &Point2) -> (r: bool) {
        self.x == other.x && self.y == other.y
    }
}

impl Eq for Point2 {

}

/// Points are equal when their coordinates are.
impl PartialEqSpecImpl for Point2 {
    open spec fn obeys_eq_spec() -> bool {
        true
    }

    open spec fn eq_spec(&self, other: &Point2) -> bool {
        self.x == other.x && self.y == other.y
    }
}

impl PartialEq for Point3 {
    fn eq(&self, other: &Point3) -> (r: bool) {
        self.x == other.x && self.y == other.y && self.z == other.z
    }
}

impl Eq for Point3 {

}

impl PartialEqSpecImpl for Point3 {
    open spec fn obeys_eq_spec() -> bool {
        true
    }

    open spec fn eq_spec(&self, other: &Point3) -> bool {
        self.x == other.x && self.y == other.y && self.z == other.z
    }
}

/// The smaller of two coordinates.
pub open spec fn lesser(a: i32, b: i32) -> i32 {
    if a <= b {
        a
    } else {
        b
    }
}

/// The larger of two coordinates.
pub open spec fn greater(a: i32, b: i32) -> i32 {
    if a >= b {
        a
    } else {
        b
    }
}

/// Half of a difference, rounded towards zero.
pub open spec fn half(d: int) -> int {
    if d >= 0 {
        d / 2
    } else {
        -((-d) / 2)
    }
}

/// Half of a length, rounded towards zero.
pub fn half_i32(s: i32) -> (h: i32)
    ensures
        h == half(s as int),
{
    if s >= 0 {
        s / 2
    } else {
        let m: i64 = -(s as i64);
        (-(m / 2)) as i32
    }
}

/// The smaller of two coordinates.
pub fn min_i32(a: i32, b: i32) -> (m: i32)
    ensures
        m == lesser(a, b),
{
    if a <= b {
        a
    } else {
        b
    }
}

/// The larger of two coordinates.
pub fn max_i32(a: i32, b: i32) -> (m: i32)
    ensures
        m == greater(a, b),
{
    if a >= b {
        a
    } else {
        b
    }
}

/// The coordinate halfway from `lo` to `hi`: `lo` plus half the difference,
/// rounded towards `lo`.
pub fn mid_i32(lo: i32, hi: i32) -> (m: i32)
    ensures
        m == lo + half(hi - lo),
{
    let d: i64 = hi as i64 - lo as i64;
    if d >= 0 {
        (lo as i64 + d / 2) as i32
    } else {
        (lo as i64 - (-d) / 2) as i32
    }
}

impl Point2 {
    /// The point with the coordinates `x` and `y`.
    pub fn new(x: i32, y: i32) -> (p: Point2)
        ensures
            p == (Point2 { x, y }),
    {
        Point2 { x, y }
    }

    /// The point at the origin.
    pub open spec fn zero() -> Point2 {
        Point2 { x: 0, y: 0 }
    }

    /// The componentwise smaller of two points.
    pub open spec fn lower(self, other: Point2) -> Point2 {
        Point2 { x: lesser(self.x, other.x), y: lesser(self.y, other.y) }
    }

    /// The componentwise larger of two points.
    pub open spec fn upper(self, other: Point2) -> Point2 {
        Point2 { x: greater(self.x, other.x), y: greater(self.y, other.y) }
    }

    /// Whether every coordinate is at most that of `other`.
    pub open spec fn below(self, other: Point2) -> bool {
        self.x <= other.x && self.y <= other.y
    }

    /// The point at the origin.
    pub fn origin() -> (p: Point2)
        ensures
            p == Point2::zero(),
    {
        Point2 { x: 0, y: 0 }
    }

    /// The componentwise smaller of two points.
    pub fn min(&self, other: &Point2) -> (p: Point2)
        ensures
            p == self.lower(*other),
    {
        Point2 { x: min_i32(self.x, other.x), y: min_i32(self.y, other.y) }
    }

    /// The componentwise larger of two points.
    pub fn max(&self, other: &Point2) -> (p: Point2)
        ensures
            p == self.upper(*other),
    {
        Point2 { x: max_i32(self.x, other.x), y: max_i32(self.y, other.y) }
    }
}

impl Point3 {
    /// The point with the coordinates `x`, `y` and `z`.
    pub fn new(x: i32, y: i32, z: i32) -> (p: Point3)
        ensures
            p == (Point3 { x, y, z }),
    {
        Point3 { x, y, z }
    }

    /// The point at the origin.
    pub open spec fn zero() -> Point3 {
        Point3 { x: 0, y: 0, z: 0 }
    }

    /// The componentwise smaller of two points.
    pub open spec fn lower(self, other: Point3) -> Point3 {
        Point3 {
            x: lesser(self.x, other.x),
            y: lesser(self.y, other.y),
            z: lesser(self.z, other.z),
        }
    }

    /// The componentwise larger of two points.
    pub open spec fn upper(self, other: Point3) -> Point3 {
        Point3 {
            x: greater(self.x, other.x),
            y: greater(self.y, other.y),
            z: greater(self.z, other.z),
        }
    }

    /// Whether every coordinate is at most that of `other`.
    pub open spec fn below(self, other: Point3) -> bool {
        self.x <= other.x && self.y <= other.y && self.z <= other.z
    }

    /// The point at the origin.
    pub fn origin() -> (p: Point3)
        ensures
            p == Point3::zero(),
    {
        Point3 { x: 0, y: 0, z: 0 }
    }

    /// The componentwise smaller of two points.
    pub fn min(&self, other: &Point3) -> (p: Point3)
        ensures
            p == self.lower(*other),
    {
        Point3 {
            x: min_i32(self.x, other.x),
            y: min_i32(self.y, other.y),
            z: min_i32(self.z, other.z),
        }
    }

    /// The componentwise larger of two points.
    pub fn max(&self, other: &Point3) -> (p: Point3)
        ensures
            p == self.upper(*other),
    {
        Point3 {
            x: max_i32(self.x, other.x),
            y: max_i32(self.y, other.y),
            z: max_i32(self.z, other.z),
        }
    }
}

impl Vector2 {
    /// The displacement by `x` and `y`.
    pub fn new(x: i32, y: i32) -> (v: Vector2)
        ensures
            v == (Vector2 { x, y }),
    {
        Vector2 { x, y }
    }
}

impl Vector3 {
    /// The displacement by `x`, `y` and `z`.
    pub fn new(x: i32, y: i32, z: i32) -> (v: Vector3)
        ensures
            v == (Vector3 { x, y, z }),
    {
        Vector3 { x, y, z }
    }
}

/// Two points overlap when they are the same point.
impl Intersects<Point2> for Point2 {
    open spec fn overlaps(&self, other: &Point2) -> bool {
        self.x == other.x && self.y == other.y
    }

    fn intersect(&self, other: &Point2) -> (hit: bool) {
        self.x == other.x && self.y == other.y
    }
}

impl Intersects<Point3> for Point3 {
    open spec fn overlaps(&self, other: &Point3) -> bool {
        self.x == other.x && self.y == other.y && self.z == other.z
    }

    fn intersect(&self, other: &Point3) -> (hit: bool) {
        self.x == other.x && self.y == other.y && self.z == other.z
    }
}

/// A point lies on exactly one side of a plane: a point on the plane counts
/// as below.
impl CheckRange2 for Point3 {
    open spec fn side_x(&self, center: i32) -> (bool, bool) {
        (self.x <= center, self.x > center)
    }

    open spec fn side_y(&self, center: i32) -> (bool, bool) {
        (self.y <= center, self.y > center)
    }

    fn check_x(&self, center: i32, scale: i32) -> (r: (bool, bool)) {
        (self.x <= center, self.x > center)
    }

    fn check_y(&self, center: i32, scale: i32) -> (r: (bool, bool)) {
        (self.y <= center, self.y > center)
    }
}

impl CheckRange3 for Point3 {
    open spec fn side_z(&self, center: i32) -> (bool, bool) {
        (self.z <= center, self.z > center)
    }

    fn check_z(&self, center: i32, scale: i32) -> (r: (bool, bool)) {
        (self.z <= center, self.z > center)
    }
}

/// A point lies somewhere: on each axis it is at or below a plane, or
/// above it.
pub proof fn lemma_point3_located(p: Point3)
    ensures
        located(p),
{
}

} // verus!
