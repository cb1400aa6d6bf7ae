//! Axis-aligned bounding boxes.

use vstd::prelude::*;
use vstd::std_specs::cmp::PartialEqSpecImpl;
use crate::point::{half, mid_i32, Point2, Point3, Vector2, Vector3};
use crate::{located, merge_covers, Center, CheckRange2, CheckRange3, Intersects, Max, Merge, Min};

verus! {

/// What every axis-aligned box offers, whatever its dimension. The `_fits`
/// predicates say when a result can be held in the coordinate type.
pub trait Aabb<V, P>: Sized {
    /// The differences of the corners fit.
    spec fn dim_fits(&self) -> bool;

    /// The differences of the corners and their product fit.
    spec fn volume_fits(&self) -> bool;

    /// Both corners moved by `v` fit.
    spec fn add_v_fits(&self, v: &V) -> bool;

    /// Both corners scaled by `s` fit.
    spec fn mul_s_fits(&self, s: i32) -> bool;

    /// Both corners scaled axis by axis by `v` fit.
    spec fn mul_v_fits(&self, v: &V) -> bool;

    /// The box with the two points as opposite corners.
    fn new(p1: P, p2: P) -> Self;

    /// The corner with the smallest coordinates.
    fn aabb_min(&self) -> &P;

    /// The corner with the largest coordinates.
    fn aabb_max(&self) -> &P;

    /// The lengths of the sides.
    fn dim(&self) -> V
        requires
            self.dim_fits(),
    ;

    /// The product of the lengths of the sides.
    fn volume(&self) -> i32
        requires
            self.volume_fits(),
    ;

    /// Whether the point is in the box: the low faces count as inside, the
    /// high faces as outside.
    fn contains(&self, p: &P) -> bool;

    /// The box grown to include the point.
    fn grow(&self, p: &P) -> Self;

    /// The box moved by a vector.
    fn add_v(&self, v: &V) -> Self
        requires
            self.add_v_fits(v),
    ;

    /// The box with both corners scaled by a factor.
    fn mul_s(&self, s: i32) -> Self
        requires
            self.mul_s_fits(s),
    ;

    /// The box with both corners scaled axis by axis.
    fn mul_v(&self, v: &V) -> Self
        requires
            self.mul_v_fits(v),
    ;
}

/// A product that fits was reached through a first factor of about the
/// same size, unless the second factor is zero.
proof fn lemma_factor_in_range(p: int, c: int)
    requires
        c != 0,
        i32::MIN <= p * c <= i32::MAX,
    ensures
        -0x8000_0000 <= p <= 0x8000_0000,
{
    if c >= 1 {
        if p > 0x8000_0000 {
            assert(p * c >= p) by (nonlinear_arith)
                requires
                    c >= 1,
                    p >= 0,
            ;
        }
        if p < -0x8000_0000 {
            assert(p * c <= p) by (nonlinear_arith)
                requires
                    c >= 1,
                    p <= 0,
            ;
        }
    } else {
        if p > 0x8000_0000 {
            assert(p * c <= -p) by (nonlinear_arith)
                requires
                    c <= -1,
                    p >= 0,
            ;
        }
        if p < -0x8000_0000 {
            assert(p * c >= -p) by (nonlinear_arith)
                requires
                    c <= -1,
                    p <= 0,
            ;
        }
    }
}

/// The product of two coordinate differences fits in 64 bits.
proof fn lemma_square_in_range(a: int, b: int)
    requires
        i32::MIN <= a <= i32::MAX,
        i32::MIN <= b <= i32::MAX,
    ensures
        -0x4000_0000_0000_0000 <= a * b <= 0x4000_0000_0000_0000,
{
    assert(-0x4000_0000_0000_0000 <= a * b <= 0x4000_0000_0000_0000) by (nonlinear_arith)
        requires
            -0x8000_0000 <= a <= 0x8000_0000,
            -0x8000_0000 <= b <= 0x8000_0000,
    ;
}

/// An axis-aligned box in the plane, given by two opposite corners.
#[derive(Clone, Copy, Debug)]
pub struct Aabb2 {
    pub min: Point2,
    pub max: Point2,
}

impl PartialEq for Aabb2 {
    fn eq(&self, other: &Aabb2) -> (r: bool) {
        self.min == other.min && self.max == other.max
    }
}

impl Eq for Aabb2 {

}

/// Boxes are equal when their corners are.
impl PartialEqSpecImpl for Aabb2 {
    open spec fn obeys_eq_spec() -> bool {
        true
    }

    open spec fn eq_spec(&self, other: &Aabb2) -> bool {
        self.min == other.min && self.max == other.max
    }
}

impl Aabb2 {
    /// The corners are in order on every axis.
    pub open spec fn wf(&self) -> bool {
        self.min.below(self.max)
    }

    /// The box with corners `p1` and `p2`, whichever way round they are given.
    pub open spec fn spanning(p1: Point2, p2: Point2) -> Aabb2 {
        Aabb2 { min: p1.lower(p2), max: p1.upper(p2) }
    }

    /// Containment that counts the low faces as inside and the high faces
    /// as outside.
    pub open spec fn holds(&self, p: Point2) -> bool {
        self.min.x <= p.x < self.max.x && self.min.y <= p.y < self.max.y
    }

    /// Containment that counts every face as inside.
    pub open spec fn touches(&self, p: Point2) -> bool {
        self.min.x <= p.x <= self.max.x && self.min.y <= p.y <= self.max.y
    }

    /// Whether `p` is one of the box's 4 corners.
    pub open spec fn has_corner(&self, p: Point2) -> bool {
        (p.x == self.min.x || p.x == self.max.x) && (p.y == self.min.y || p.y == self.max.y)
    }

    /// The smallest box around the points; the box at the origin for none.
    pub open spec fn around(points: Seq<Point2>) -> Aabb2
        decreases points.len(),
    {
        if points.len() == 0 {
            Aabb2 { min: Point2::zero(), max: Point2::zero() }
        } else if points.len() == 1 {
            Aabb2 { min: points[0], max: points[0] }
        } else {
            let rest = Aabb2::around(points.drop_last());
            Aabb2 { min: rest.min.lower(points.last()), max: rest.max.upper(points.last()) }
        }
    }

    /// Construct a box from two points, sorting the corners on each axis.
    pub fn new(p1: Point2, p2: Point2) -> (b: Aabb2)
        ensures
            b == Aabb2::spanning(p1, p2),
            b.wf(),
    {
        Aabb2 { min: p1.min(&p2), max: p1.max(&p2) }
    }

    /// The smallest box around a run of points.
    pub fn from_iter(points: &[Point2]) -> (b: Aabb2)
        ensures
            b == Aabb2::around(points@),
    {
        if points.len() == 0 {
            return Aabb2 { min: Point2::origin(), max: Point2::origin() };
        }
        let mut min = points[0];
        let mut max = points[0];
        let mut i: usize = 1;
        assert(points@.take(1).len() == 1);
        while i < points.len()
            invariant
                1 <= i <= points.len(),
                (Aabb2 { min, max }) == Aabb2::around(points@.take(i as int)),
            decreases points.len() - i,
        {
            proof {
                assert(points@.take(i + 1).drop_last() =~= points@.take(i as int));
            }
            min = min.min(&points[i]);
            max = max.max(&points[i]);
            i += 1;
        }
        proof {
            assert(points@.take(i as int) =~= points@);
        }
        Aabb2 { min, max }
    }
}

impl Aabb<Vector2, Point2> for Aabb2 {
    open spec fn dim_fits(&self) -> bool {
        &&& i32::MIN <= self.max.x - self.min.x <= i32::MAX
        &&& i32::MIN <= self.max.y - self.min.y <= i32::MAX
    }

    open spec fn volume_fits(&self) -> bool {
        &&& self.dim_fits()
        &&& i32::MIN <= (self.max.x - self.min.x) * (self.max.y - self.min.y) <= i32::MAX
    }

    open spec fn add_v_fits(&self, v: &Vector2) -> bool {
        &&& i32::MIN <= self.min.x + v.x <= i32::MAX
        &&& i32::MIN <= self.max.x + v.x <= i32::MAX
        &&& i32::MIN <= self.min.y + v.y <= i32::MAX
        &&& i32::MIN <= self.max.y + v.y <= i32::MAX
    }

    open spec fn mul_s_fits(&self, s: i32) -> bool {
        &&& i32::MIN <= self.min.x * s <= i32::MAX
        &&& i32::MIN <= self.max.x * s <= i32::MAX
        &&& i32::MIN <= self.min.y * s <= i32::MAX
        &&& i32::MIN <= self.max.y * s <= i32::MAX
    }

    open spec fn mul_v_fits(&self, v: &Vector2) -> bool {
        &&& i32::MIN <= self.min.x * v.x <= i32::MAX
        &&& i32::MIN <= self.max.x * v.x <= i32::MAX
        &&& i32::MIN <= self.min.y * v.y <= i32::MAX
        &&& i32::MIN <= self.max.y * v.y <= i32::MAX
    }

    fn new(p1: Point2, p2: Point2) -> (b: Aabb2)
        ensures
            b == Aabb2::spanning(p1, p2),
    {
        Aabb2::new(p1, p2)
    }

    fn aabb_min(&self) -> (p: &Point2)
        ensures
            *p == self.min,
    {
        &self.min
    }

    fn aabb_max(&self) -> (p: &Point2)
        ensures
            *p == self.max,
    {
        &self.max
    }

    fn dim(&self) -> (d: Vector2)
        ensures
            d.x == self.max.x - self.min.x,
            d.y == self.max.y - self.min.y,
    {
        Vector2 { x: self.max.x - self.min.x, y: self.max.y - self.min.y }
    }

    fn volume(&self) -> (v: i32)
        ensures
            v == (self.max.x - self.min.x) * (self.max.y - self.min.y),
    {
        let d = self.dim();
        d.x * d.y
    }

    fn contains(&self, p: &Point2) -> (inside: bool)
        ensures
            inside == self.holds(*p),
    {
        self.min.x <= p.x && p.x < self.max.x && self.min.y <= p.y && p.y < self.max.y
    }

    fn grow(&self, p: &Point2) -> (b: Aabb2)
        ensures
            b == Aabb2::spanning(self.min.lower(*p), self.max.upper(*p)),
    {
        Aabb2::new(self.min.min(p), self.max.max(p))
    }

    fn add_v(&self, v: &Vector2) -> (b: Aabb2)
        ensures
            b == Aabb2::spanning(
                Point2 { x: (self.min.x + v.x) as i32, y: (self.min.y + v.y) as i32 },
                Point2 { x: (self.max.x + v.x) as i32, y: (self.max.y + v.y) as i32 },
            ),
    {
        Aabb2::new(
            Point2 { x: self.min.x + v.x, y: self.min.y + v.y },
            Point2 { x: self.max.x + v.x, y: self.max.y + v.y },
        )
    }

    fn mul_s(&self, s: i32) -> (b: Aabb2)
        ensures
            b == Aabb2::spanning(
                Point2 { x: (self.min.x * s) as i32, y: (self.min.y * s) as i32 },
                Point2 { x: (self.max.x * s) as i32, y: (self.max.y * s) as i32 },
            ),
    {
        Aabb2::new(
            Point2 { x: self.min.x * s, y: self.min.y * s },
            Point2 { x: self.max.x * s, y: self.max.y * s },
        )
    }

    fn mul_v(&self, v: &Vector2) -> (b: Aabb2)
        ensures
            b == Aabb2::spanning(
                Point2 { x: (self.min.x * v.x) as i32, y: (self.min.y * v.y) as i32 },
                Point2 { x: (self.max.x * v.x) as i32, y: (self.max.y * v.y) as i32 },
            ),
    {
        Aabb2::new(
            Point2 { x: self.min.x * v.x, y: self.min.y * v.y },
            Point2 { x: self.max.x * v.x, y: self.max.y * v.y },
        )
    }
}

/// Two boxes overlap when no axis separates them; boxes that only touch
/// overlap.
impl Intersects<Aabb2> for Aabb2 {
    open spec fn overlaps(&self, other: &Aabb2) -> bool {
        self.max.x >= other.min.x && self.min.x <= other.max.x && self.max.y >= other.min.y && self.min.y <= other.max.y
    }

    fn intersect(&self, other: &Aabb2) -> (hit: bool) {
        !(self.max.x < other.min.x || self.max.y < other.min.y
            || self.min.x > other.max.x || self.min.y > other.max.y)
    }
}

impl Center<Point2> for Aabb2 {
    /// The low corner plus half of each side, rounded towards the low corner.
    open spec fn midpoint(&self) -> Point2 {
        Point2 {
            x: (self.min.x + half(self.max.x - self.min.x)) as i32,
            y: (self.min.y + half(self.max.y - self.min.y)) as i32,
        }
    }

    fn center(&self) -> (c: Point2) {
        Point2 { x: mid_i32(self.min.x, self.max.x), y: mid_i32(self.min.y, self.max.y) }
    }
}

impl Max<Point2> for Aabb2 {
    open spec fn upper_corner(&self) -> Point2 {
        self.max
    }

    fn max(&self) -> (c: Point2) {
        self.max
    }
}

impl Min<Point2> for Aabb2 {
    open spec fn lower_corner(&self) -> Point2 {
        self.min
    }

    fn min(&self) -> (c: Point2) {
        self.min
    }
}

impl Merge for Aabb2 {
    open spec fn envelope(&self, other: &Aabb2) -> Aabb2 {
        Aabb2 { min: self.min.lower(other.min), max: self.max.upper(other.max) }
    }

    fn merge(&self, other: &Aabb2) -> (m: Aabb2) {
        Aabb2 { min: self.min.min(&other.min), max: self.max.max(&other.max) }
    }
}

impl Default for Aabb2 {
    fn default() -> (b: Aabb2)
        ensures
            b == (Aabb2 { min: Point2::zero(), max: Point2::zero() }),
    {
        Aabb2 { min: Point2::origin(), max: Point2::origin() }
    }
}

/// Overlap of boxes does not depend on which of the two is asked.
pub proof fn lemma_aabb2_intersect_symmetric(a: Aabb2, b: Aabb2)
    ensures
        a.overlaps(&b) == b.overlaps(&a),
{
}

/// The merge of two boxes holds, faces included, every point that either
/// of them holds.
pub proof fn lemma_aabb2_merge_encloses(a: Aabb2, b: Aabb2, p: Point2)
    requires
        a.touches(p) || b.touches(p),
    ensures
        a.envelope(&b).touches(p),
{
}

/// At a corner of one of two boxes, the merge holds the point just as one
/// of the two boxes does: both do.
pub proof fn lemma_aabb2_merge_envelope(a: Aabb2, b: Aabb2, p: Point2)
    requires
        a.wf(),
        b.wf(),
        a.has_corner(p) || b.has_corner(p),
    ensures
        a.envelope(&b).touches(p) <==> a.touches(p) || b.touches(p),
        a.envelope(&b).touches(p),
{
}

/// The merge of two boxes in order is in order, and is the same whichever
/// box comes first.
pub proof fn lemma_aabb2_merge_wf(a: Aabb2, b: Aabb2)
    ensures
        a.wf() || b.wf() ==> a.envelope(&b).wf(),
        a.envelope(&b) == b.envelope(&a),
{
}

/// Merging boxes loses no overlap.
pub proof fn lemma_aabb2_merge_covers()
    ensures
        merge_covers::<Aabb2>(),
{
    assert forall|a: Aabb2, b: Aabb2, q: Aabb2| a.overlaps(&q) || b.overlaps(&q) implies #[trigger] a.envelope(
        &b,
    ).overlaps(&q) by {}
}

/// An axis-aligned box in space, given by two opposite corners.
#[derive(Clone, Copy, Debug)]
pub struct Aabb3 {
    pub min: Point3,
    pub max: Point3,
}

impl PartialEq for Aabb3 {
    fn eq(&self, other: &Aabb3) -> (r: bool) {
        self.min == other.min && self.max == other.max
    }
}

impl Eq for Aabb3 {

}

/// Boxes are equal when their corners are.
impl PartialEqSpecImpl for Aabb3 {
    open spec fn obeys_eq_spec() -> bool {
        true
    }

    open spec fn eq_spec(&self, other: &Aabb3) -> bool {
        self.min == other.min && self.max == other.max
    }
}

impl Aabb3 {
    /// The corners are in order on every axis.
    pub open spec fn wf(&self) -> bool {
        self.min.below(self.max)
    }

    /// The box with corners `p1` and `p2`, whichever way round they are given.
    pub open spec fn spanning(p1: Point3, p2: Point3) -> Aabb3 {
        Aabb3 { min: p1.lower(p2), max: p1.upper(p2) }
    }

    /// Containment that counts the low faces as inside and the high faces
    /// as outside.
    pub open spec fn holds(&self, p: Point3) -> bool {
        self.min.x <= p.x < self.max.x && self.min.y <= p.y < self.max.y && self.min.z <= p.z < self.max.z
    }

    /// Containment that counts every face as inside.
    pub open spec fn touches(&self, p: Point3) -> bool {
        self.min.x <= p.x <= self.max.x && self.min.y <= p.y <= self.max.y && self.min.z <= p.z <= self.max.z
    }

    /// Whether `p` is one of the box's 8 corners.
    pub open spec fn has_corner(&self, p: Point3) -> bool {
        (p.x == self.min.x || p.x == self.max.x) && (p.y == self.min.y || p.y == self.max.y) && (p.z == self.min.z || p.z == self.max.z)
    }

    /// The smallest box around the points; the box at the origin for none.
    pub open spec fn around(points: Seq<Point3>) -> Aabb3
        decreases points.len(),
    {
        if points.len() == 0 {
            Aabb3 { min: Point3::zero(), max: Point3::zero() }
        } else if points.len() == 1 {
            Aabb3 { min: points[0], max: points[0] }
        } else {
            let rest = Aabb3::around(points.drop_last());
            Aabb3 { min: rest.min.lower(points.last()), max: rest.max.upper(points.last()) }
        }
    }

    /// Construct a box from two points, sorting the corners on each axis.
    pub fn new(p1: Point3, p2: Point3) -> (b: Aabb3)
        ensures
            b == Aabb3::spanning(p1, p2),
            b.wf(),
    {
        Aabb3 { min: p1.min(&p2), max: p1.max(&p2) }
    }

    /// The smallest box around a run of points.
    pub fn from_iter(points: &[Point3]) -> (b: Aabb3)
        ensures
            b == Aabb3::around(points@),
    {
        if points.len() == 0 {
            return Aabb3 { min: Point3::origin(), max: Point3::origin() };
        }
        let mut min = points[0];
        let mut max = points[0];
        let mut i: usize = 1;
        assert(points@.take(1).len() == 1);
        while i < points.len()
            invariant
                1 <= i <= points.len(),
                (Aabb3 { min, max }) == Aabb3::around(points@.take(i as int)),
            decreases points.len() - i,
        {
            proof {
                assert(points@.take(i + 1).drop_last() =~= points@.take(i as int));
            }
            min = min.min(&points[i]);
            max = max.max(&points[i]);
            i += 1;
        }
        proof {
            assert(points@.take(i as int) =~= points@);
        }
        Aabb3 { min, max }
    }
}

impl Aabb<Vector3, Point3> for Aabb3 {
    open spec fn dim_fits(&self) -> bool {
        &&& i32::MIN <= self.max.x - self.min.x <= i32::MAX
        &&& i32::MIN <= self.max.y - self.min.y <= i32::MAX
        &&& i32::MIN <= self.max.z - self.min.z <= i32::MAX
    }

    open spec fn volume_fits(&self) -> bool {
        &&& self.dim_fits()
        &&& i32::MIN <= (self.max.x - self.min.x) * (self.max.y - self.min.y) * (self.max.z - self.min.z) <= i32::MAX
    }

    open spec fn add_v_fits(&self, v: &Vector3) -> bool {
        &&& i32::MIN <= self.min.x + v.x <= i32::MAX
        &&& i32::MIN <= self.max.x + v.x <= i32::MAX
        &&& i32::MIN <= self.min.y + v.y <= i32::MAX
        &&& i32::MIN <= self.max.y + v.y <= i32::MAX
        &&& i32::MIN <= self.min.z + v.z <= i32::MAX
        &&& i32::MIN <= self.max.z + v.z <= i32::MAX
    }

    open spec fn mul_s_fits(&self, s: i32) -> bool {
        &&& i32::MIN <= self.min.x * s <= i32::MAX
        &&& i32::MIN <= self.max.x * s <= i32::MAX
        &&& i32::MIN <= self.min.y * s <= i32::MAX
        &&& i32::MIN <= self.max.y * s <= i32::MAX
        &&& i32::MIN <= self.min.z * s <= i32::MAX
        &&& i32::MIN <= self.max.z * s <= i32::MAX
    }

    open spec fn mul_v_fits(&self, v: &Vector3) -> bool {
        &&& i32::MIN <= self.min.x * v.x <= i32::MAX
        &&& i32::MIN <= self.max.x * v.x <= i32::MAX
        &&& i32::MIN <= self.min.y * v.y <= i32::MAX
        &&& i32::MIN <= self.max.y * v.y <= i32::MAX
        &&& i32::MIN <= self.min.z * v.z <= i32::MAX
        &&& i32::MIN <= self.max.z * v.z <= i32::MAX
    }

    fn new(p1: Point3, p2: Point3) -> (b: Aabb3)
        ensures
            b == Aabb3::spanning(p1, p2),
    {
        Aabb3::new(p1, p2)
    }

    fn aabb_min(&self) -> (p: &Point3)
        ensures
            *p == self.min,
    {
        &self.min
    }

    fn aabb_max(&self) -> (p: &Point3)
        ensures
            *p == self.max,
    {
        &self.max
    }

    fn dim(&self) -> (d: Vector3)
        ensures
            d.x == self.max.x - self.min.x,
            d.y == self.max.y - self.min.y,
            d.z == self.max.z - self.min.z,
    {
        Vector3 { x: self.max.x - self.min.x, y: self.max.y - self.min.y, z: self.max.z - self.min.z }
    }

    fn volume(&self) -> (v: i32)
        ensures
            v == (self.max.x - self.min.x) * (self.max.y - self.min.y) * (self.max.z - self.min.z),
    {
        let d = self.dim();
        proof {
            lemma_square_in_range(d.x as int, d.y as int);
        }
        let p: i64 = d.x as i64 * d.y as i64;
        if d.z == 0 {
            assert(p * 0 == 0);
            return 0;
        }
        proof {
            lemma_factor_in_range(p as int, d.z as int);
        }
        (p * d.z as i64) as i32
    }

    fn contains(&self, p: &Point3) -> (inside: bool)
        ensures
            inside == self.holds(*p),
    {
        self.min.x <= p.x && p.x < self.max.x && self.min.y <= p.y && p.y < self.max.y && self.min.z <= p.z && p.z < self.max.z
    }

    fn grow(&self, p: &Point3) -> (b: Aabb3)
        ensures
            b == Aabb3::spanning(self.min.lower(*p), self.max.upper(*p)),
    {
        Aabb3::new(self.min.min(p), self.max.max(p))
    }

    fn add_v(&self, v: &Vector3) -> (b: Aabb3)
        ensures
            b == Aabb3::spanning(
                Point3 { x: (self.min.x + v.x) as i32, y: (self.min.y + v.y) as i32, z: (self.min.z + v.z) as i32 },
                Point3 { x: (self.max.x + v.x) as i32, y: (self.max.y + v.y) as i32, z: (self.max.z + v.z) as i32 },
            ),
    {
        Aabb3::new(
            Point3 { x: self.min.x + v.x, y: self.min.y + v.y, z: self.min.z + v.z },
            Point3 { x: self.max.x + v.x, y: self.max.y + v.y, z: self.max.z + v.z },
        )
    }

    fn mul_s(&self, s: i32) -> (b: Aabb3)
        ensures
            b == Aabb3::spanning(
                Point3 { x: (self.min.x * s) as i32, y: (self.min.y * s) as i32, z: (self.min.z * s) as i32 },
                Point3 { x: (self.max.x * s) as i32, y: (self.max.y * s) as i32, z: (self.max.z * s) as i32 },
            ),
    {
        Aabb3::new(
            Point3 { x: self.min.x * s, y: self.min.y * s, z: self.min.z * s },
            Point3 { x: self.max.x * s, y: self.max.y * s, z: self.max.z * s },
        )
    }

    fn mul_v(&self, v: &Vector3) -> (b: Aabb3)
        ensures
            b == Aabb3::spanning(
                Point3 { x: (self.min.x * v.x) as i32, y: (self.min.y * v.y) as i32, z: (self.min.z * v.z) as i32 },
                Point3 { x: (self.max.x * v.x) as i32, y: (self.max.y * v.y) as i32, z: (self.max.z * v.z) as i32 },
            ),
    {
        Aabb3::new(
            Point3 { x: self.min.x * v.x, y: self.min.y * v.y, z: self.min.z * v.z },
            Point3 { x: self.max.x * v.x, y: self.max.y * v.y, z: self.max.z * v.z },
        )
    }
}

/// Two boxes overlap when no axis separates them; boxes that only touch
/// overlap.
impl Intersects<Aabb3> for Aabb3 {
    open spec fn overlaps(&self, other: &Aabb3) -> bool {
        self.max.x >= other.min.x && self.min.x <= other.max.x && self.max.y >= other.min.y && self.min.y <= other.max.y && self.max.z >= other.min.z && self.min.z <= other.max.z
    }

    fn intersect(&self, other: &Aabb3) -> (hit: bool) {
        !(self.max.x < other.min.x || self.max.y < other.min.y || self.max.z < other.min.z
            || self.min.x > other.max.x || self.min.y > other.max.y || self.min.z > other.max.z)
    }
}

impl Center<Point3> for Aabb3 {
    /// The low corner plus half of each side, rounded towards the low corner.
    open spec fn midpoint(&self) -> Point3 {
        Point3 {
            x: (self.min.x + half(self.max.x - self.min.x)) as i32,
            y: (self.min.y + half(self.max.y - self.min.y)) as i32,
            z: (self.min.z + half(self.max.z - self.min.z)) as i32,
        }
    }

    fn center(&self) -> (c: Point3) {
        Point3 { x: mid_i32(self.min.x, self.max.x), y: mid_i32(self.min.y, self.max.y), z: mid_i32(self.min.z, self.max.z) }
    }
}

impl Max<Point3> for Aabb3 {
    open spec fn upper_corner(&self) -> Point3 {
        self.max
    }

    fn max(&self) -> (c: Point3) {
        self.max
    }
}

impl Min<Point3> for Aabb3 {
    open spec fn lower_corner(&self) -> Point3 {
        self.min
    }

    fn min(&self) -> (c: Point3) {
        self.min
    }
}

impl Merge for Aabb3 {
    open spec fn envelope(&self, other: &Aabb3) -> Aabb3 {
        Aabb3 { min: self.min.lower(other.min), max: self.max.upper(other.max) }
    }

    fn merge(&self, other: &Aabb3) -> (m: Aabb3) {
        Aabb3 { min: self.min.min(&other.min), max: self.max.max(&other.max) }
    }
}

impl Default for Aabb3 {
    fn default() -> (b: Aabb3)
        ensures
            b == (Aabb3 { min: Point3::zero(), max: Point3::zero() }),
    {
        Aabb3 { min: Point3::origin(), max: Point3::origin() }
    }
}

/// Overlap of boxes does not depend on which of the two is asked.
pub proof fn lemma_aabb3_intersect_symmetric(a: Aabb3, b: Aabb3)
    ensures
        a.overlaps(&b) == b.overlaps(&a),
{
}

/// The merge of two boxes holds, faces included, every point that either
/// of them holds.
pub proof fn lemma_aabb3_merge_encloses(a: Aabb3, b: Aabb3, p: Point3)
    requires
        a.touches(p) || b.touches(p),
    ensures
        a.envelope(&b).touches(p),
{
}

/// At a corner of one of two boxes, the merge holds the point just as one
/// of the two boxes does: both do.
pub proof fn lemma_aabb3_merge_envelope(a: Aabb3, b: Aabb3, p: Point3)
    requires
        a.wf(),
        b.wf(),
        a.has_corner(p) || b.has_corner(p),
    ensures
        a.envelope(&b).touches(p) <==> a.touches(p) || b.touches(p),
        a.envelope(&b).touches(p),
{
}

/// The merge of two boxes in order is in order, and is the same whichever
/// box comes first.
pub proof fn lemma_aabb3_merge_wf(a: Aabb3, b: Aabb3)
    ensures
        a.wf() || b.wf() ==> a.envelope(&b).wf(),
        a.envelope(&b) == b.envelope(&a),
{
}

/// Merging boxes loses no overlap.
pub proof fn lemma_aabb3_merge_covers()
    ensures
        merge_covers::<Aabb3>(),
{
    assert forall|a: Aabb3, b: Aabb3, q: Aabb3| a.overlaps(&q) || b.overlaps(&q) implies #[trigger] a.envelope(
        &b,
    ).overlaps(&q) by {}
}

/// A box reaches below a plane when its low corner is at or below it, and
/// above when its high corner is strictly above.
impl CheckRange2 for Aabb3 {
    open spec fn side_x(&self, center: i32) -> (bool, bool) {
        (self.min.x <= center, self.max.x > center)
    }

    open spec fn side_y(&self, center: i32) -> (bool, bool) {
        (self.min.y <= center, self.max.y > center)
    }

    fn check_x(&self, center: i32, scale: i32) -> (r: (bool, bool)) {
        (self.min.x <= center, self.max.x > center)
    }

    fn check_y(&self, center: i32, scale: i32) -> (r: (bool, bool)) {
        (self.min.y <= center, self.max.y > center)
    }
}

impl CheckRange3 for Aabb3 {
    open spec fn side_z(&self, center: i32) -> (bool, bool) {
        (self.min.z <= center, self.max.z > center)
    }

    fn check_z(&self, center: i32, scale: i32) -> (r: (bool, bool)) {
        (self.min.z <= center, self.max.z > center)
    }
}

/// A box with its corners in order lies somewhere: on each axis part of it
/// is at or below a plane, or part of it is above.
pub proof fn lemma_aabb3_located(b: Aabb3)
    requires
        b.wf(),
    ensures
        located(b),
{
}

} // verus!
