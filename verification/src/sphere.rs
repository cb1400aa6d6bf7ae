//! Spheres and circles.

use vstd::prelude::*;
use vstd::std_specs::cmp::PartialEqSpecImpl;
use crate::point::{Point2, Point3};
use crate::{located, Center, CheckRange2, CheckRange3, Intersects, Max, Min};

verus! {

/// The coordinate nearest to a number.
pub open spec fn clamp_i32(v: int) -> i32 {
    if v < i32::MIN {
        i32::MIN
    } else if v > i32::MAX {
        i32::MAX
    } else {
        v as i32
    }
}

fn clamp(v: i64) -> (c: i32)
    ensures
        c == clamp_i32(v as int),
{
    if v < i32::MIN as i64 {
        i32::MIN
    } else if v > i32::MAX as i64 {
        i32::MAX
    } else {
        v as i32
    }
}

/// The square of a difference of coordinates, or of a sum of radii, fits
/// in 64 bits and a little.
proof fn lemma_square_bound(d: int)
    requires
        -0x1_0000_0000 <= d <= 0x1_0000_0000,
    ensures
        0 <= d * d <= 0x1_0000_0000_0000_0000,
{
    assert(0 <= d * d <= 0x1_0000_0000_0000_0000) by (nonlinear_arith)
        requires
            -0x1_0000_0000 <= d <= 0x1_0000_0000,
    ;
}

/// A sphere: the points of space within `radius` of `center`.
#[derive(Clone, Copy, Debug)]
pub struct Sphere {
    pub center: Point3,
    pub radius: i32,
}

impl PartialEq for Sphere {
    fn eq(&self, other: &Sphere) -> (r: bool) {
        self.center == other.center && self.radius == other.radius
    }
}

impl Eq for Sphere {

}

impl PartialEqSpecImpl for Sphere {
    open spec fn obeys_eq_spec() -> bool {
        true
    }

    open spec fn eq_spec(&self, other: &Sphere) -> bool {
        self.center.x == other.center.x && self.center.y == other.center.y && self.center.z == other.center.z && self.radius == other.radius
    }
}

impl Sphere {
    /// The sphere of radius `size` around `center`.
    pub fn new(center: Point3, size: i32) -> (s: Sphere)
        ensures
            s == (Sphere { center, radius: size }),
    {
        Sphere { center, radius: size }
    }
}

impl Center<Point3> for Sphere {
    open spec fn midpoint(&self) -> Point3 {
        self.center
    }

    fn center(&self) -> (c: Point3) {
        self.center
    }
}

/// Two spheres overlap when their centers are nearer to each other than
/// the sum of the radii: the square of the distance is below the square of
/// a sum that is above zero.
impl Intersects<Sphere> for Sphere {
    open spec fn overlaps(&self, other: &Sphere) -> bool {
        let reach = self.radius + other.radius;
        reach > 0 && (self.center.x - other.center.x) * (self.center.x - other.center.x) + (self.center.y - other.center.y) * (self.center.y - other.center.y) + (self.center.z - other.center.z) * (self.center.z - other.center.z) < reach * reach
    }

    fn intersect(&self, other: &Sphere) -> (hit: bool) {
        let reach: i128 = self.radius as i128 + other.radius as i128;
        if reach <= 0 {
            return false;
        }
        let dx: i128 = self.center.x as i128 - other.center.x as i128;
        let dy: i128 = self.center.y as i128 - other.center.y as i128;
        let dz: i128 = self.center.z as i128 - other.center.z as i128;
        proof {
            lemma_square_bound(dx as int);
            lemma_square_bound(dy as int);
            lemma_square_bound(dz as int);
            lemma_square_bound(reach as int);
        }
        dx * dx + dy * dy + dz * dz < reach * reach
    }
}

impl Default for Sphere {
    fn default() -> (s: Sphere)
        ensures
            s == (Sphere { center: Point3::zero(), radius: 0 }),
    {
        Sphere { center: Point3::origin(), radius: 0 }
    }
}

/// The high corner of the box around the sphere. A coordinate beyond the
/// largest is held at the largest.
impl Max<Point3> for Sphere {
    open spec fn upper_corner(&self) -> Point3 {
        Point3 { x: clamp_i32(self.center.x + self.radius), y: clamp_i32(self.center.y + self.radius), z: clamp_i32(self.center.z + self.radius) }
    }

    fn max(&self) -> (c: Point3) {
        Point3 { x: clamp(self.center.x as i64 + self.radius as i64), y: clamp(self.center.y as i64 + self.radius as i64), z: clamp(self.center.z as i64 + self.radius as i64) }
    }
}

/// The low corner of the box around the sphere. A coordinate beyond the
/// smallest is held at the smallest.
impl Min<Point3> for Sphere {
    open spec fn lower_corner(&self) -> Point3 {
        Point3 { x: clamp_i32(self.center.x - self.radius), y: clamp_i32(self.center.y - self.radius), z: clamp_i32(self.center.z - self.radius) }
    }

    fn min(&self) -> (c: Point3) {
        Point3 { x: clamp(self.center.x as i64 - self.radius as i64), y: clamp(self.center.y as i64 - self.radius as i64), z: clamp(self.center.z as i64 - self.radius as i64) }
    }
}

/// A sphere reaches below a plane when its lowest point is at or below it,
/// and above when its highest point is strictly above.
impl CheckRange2 for Sphere {
    open spec fn side_x(&self, center: i32) -> (bool, bool) {
        (self.center.x - self.radius <= center, self.center.x + self.radius > center)
    }

    open spec fn side_y(&self, center: i32) -> (bool, bool) {
        (self.center.y - self.radius <= center, self.center.y + self.radius > center)
    }

    fn check_x(&self, center: i32, scale: i32) -> (r: (bool, bool)) {
        (
            self.center.x as i64 - self.radius as i64 <= center as i64,
            self.center.x as i64 + self.radius as i64 > center as i64,
        )
    }

    fn check_y(&self, center: i32, scale: i32) -> (r: (bool, bool)) {
        (
            self.center.y as i64 - self.radius as i64 <= center as i64,
            self.center.y as i64 + self.radius as i64 > center as i64,
        )
    }
}

impl CheckRange3 for Sphere {
    open spec fn side_z(&self, center: i32) -> (bool, bool) {
        (self.center.z - self.radius <= center, self.center.z + self.radius > center)
    }

    fn check_z(&self, center: i32, scale: i32) -> (r: (bool, bool)) {
        (
            self.center.z as i64 - self.radius as i64 <= center as i64,
            self.center.z as i64 + self.radius as i64 > center as i64,
        )
    }
}

/// A sphere whose radius is not negative lies somewhere: on each axis part
/// of it is at or below a plane, or part of it is above.
pub proof fn lemma_sphere_located(s: Sphere)
    requires
        s.radius >= 0,
    ensures
        located(s),
{
}

/// A circle: the points of the plane within `radius` of `center`.
#[derive(Clone, Copy, Debug)]
pub struct Circle {
    pub center: Point2,
    pub radius: i32,
}

impl PartialEq for Circle {
    fn eq(&self, other: &Circle) -> (r: bool) {
        self.center == other.center && self.radius == other.radius
    }
}

impl Eq for Circle {

}

impl PartialEqSpecImpl for Circle {
    open spec fn obeys_eq_spec() -> bool {
        true
    }

    open spec fn eq_spec(&self, other: &Circle) -> bool {
        self.center.x == other.center.x && self.center.y == other.center.y && self.radius == other.radius
    }
}

impl Circle {
    /// The circle of radius `size` around `center`.
    pub fn new(center: Point2, size: i32) -> (s: Circle)
        ensures
            s == (Circle { center, radius: size }),
    {
        Circle { center, radius: size }
    }
}

impl Center<Point2> for Circle {
    open spec fn midpoint(&self) -> Point2 {
        self.center
    }

    fn center(&self) -> (c: Point2) {
        self.center
    }
}

/// Two circles overlap when their centers are nearer to each other than
/// the sum of the radii: the square of the distance is below the square of
/// a sum that is above zero.
impl Intersects<Circle> for Circle {
    open spec fn overlaps(&self, other: &Circle) -> bool {
        let reach = self.radius + other.radius;
        reach > 0 && (self.center.x - other.center.x) * (self.center.x - other.center.x) + (self.center.y - other.center.y) * (self.center.y - other.center.y) < reach * reach
    }

    fn intersect(&self, other: &Circle) -> (hit: bool) {
        let reach: i128 = self.radius as i128 + other.radius as i128;
        if reach <= 0 {
            return false;
        }
        let dx: i128 = self.center.x as i128 - other.center.x as i128;
        let dy: i128 = self.center.y as i128 - other.center.y as i128;
        proof {
            lemma_square_bound(dx as int);
            lemma_square_bound(dy as int);
            lemma_square_bound(reach as int);
        }
        dx * dx + dy * dy < reach * reach
    }
}

impl Default for Circle {
    fn default() -> (s: Circle)
        ensures
            s == (Circle { center: Point2::zero(), radius: 0 }),
    {
        Circle { center: Point2::origin(), radius: 0 }
    }
}

/// The high corner of the box around the circle. A coordinate beyond the
/// largest is held at the largest.
impl Max<Point2> for Circle {
    open spec fn upper_corner(&self) -> Point2 {
        Point2 { x: clamp_i32(self.center.x + self.radius), y: clamp_i32(self.center.y + self.radius) }
    }

    fn max(&self) -> (c: Point2) {
        Point2 { x: clamp(self.center.x as i64 + self.radius as i64), y: clamp(self.center.y as i64 + self.radius as i64) }
    }
}

/// The low corner of the box around the circle. A coordinate beyond the
/// smallest is held at the smallest.
impl Min<Point2> for Circle {
    open spec fn lower_corner(&self) -> Point2 {
        Point2 { x: clamp_i32(self.center.x - self.radius), y: clamp_i32(self.center.y - self.radius) }
    }

    fn min(&self) -> (c: Point2) {
        Point2 { x: clamp(self.center.x as i64 - self.radius as i64), y: clamp(self.center.y as i64 - self.radius as i64) }
    }
}

/// A circle reaches below a plane when its lowest point is at or below it,
/// and above when its highest point is strictly above.
impl CheckRange2 for Circle {
    open spec fn side_x(&self, center: i32) -> (bool, bool) {
        (self.center.x - self.radius <= center, self.center.x + self.radius > center)
    }

    open spec fn side_y(&self, center: i32) -> (bool, bool) {
        (self.center.y - self.radius <= center, self.center.y + self.radius > center)
    }

    fn check_x(&self, center: i32, scale: i32) -> (r: (bool, bool)) {
        (
            self.center.x as i64 - self.radius as i64 <= center as i64,
            self.center.x as i64 + self.radius as i64 > center as i64,
        )
    }

    fn check_y(&self, center: i32, scale: i32) -> (r: (bool, bool)) {
        (
            self.center.y as i64 - self.radius as i64 <= center as i64,
            self.center.y as i64 + self.radius as i64 > center as i64,
        )
    }
}

} // verus!
