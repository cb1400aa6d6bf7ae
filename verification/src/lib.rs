//! Broad-phase collision detection on integer (fixed-point) coordinates:
//! bounding shapes, a linear bounding-volume hierarchy, two octrees and a
//! uniform grid, each with the queries that find what overlaps a probe.

use vstd::prelude::*;

pub mod aabb;
pub mod bvh;
pub mod layout;
pub mod linear;
pub mod morton;
pub mod octant;
pub mod point;
pub mod sparse;
pub mod sphere;
pub mod uniform;

verus! {

/// Overlap test between two bounding shapes.
pub trait Intersects<Other> {
    /// Whether the two shapes overlap.
    spec fn overlaps(&self, other: &Other) -> bool;

    fn intersect(&self, other: &Other) -> (hit: bool)
        ensures
            hit == self.overlaps(other),
    ;
}

/// The point at the middle of a shape.
pub trait Center<P> {
    spec fn midpoint(&self) -> P;

    fn center(&self) -> (c: P)
        ensures
            c == self.midpoint(),
    ;
}

/// The corner of a shape's bounding box with the largest coordinates.
pub trait Max<P> {
    spec fn upper_corner(&self) -> P;

    fn max(&self) -> (c: P)
        ensures
            c == self.upper_corner(),
    ;
}

/// The corner of a shape's bounding box with the smallest coordinates.
pub trait Min<P> {
    spec fn lower_corner(&self) -> P;

    fn min(&self) -> (c: P)
        ensures
            c == self.lower_corner(),
    ;
}

/// The smallest shape of the same kind that encloses two shapes.
pub trait Merge: Sized {
    spec fn envelope(&self, other: &Self) -> Self;

    fn merge(&self, other: &Self) -> (m: Self)
        ensures
            m == self.envelope(other),
    ;
}

/// Merging loses no overlap: what overlaps one of two shapes overlaps
/// their merge.
pub open spec fn merge_covers<C: Merge + Intersects<C>>() -> bool {
    forall|a: C, b: C, q: C|
        a.overlaps(&q) || b.overlaps(&q) ==> #[trigger] a.envelope(&b).overlaps(&q)
}

/// On which sides of a plane `x = center` or `y = center` a shape lies.
/// The first flag says that part of the shape is at or below the plane,
/// the second that part of it is strictly above.
pub trait CheckRange2 {
    spec fn side_x(&self, center: i32) -> (bool, bool);

    spec fn side_y(&self, center: i32) -> (bool, bool);

    fn check_x(&self, center: i32, scale: i32) -> (r: (bool, bool))
        ensures
            r == self.side_x(center),
    ;

    fn check_y(&self, center: i32, scale: i32) -> (r: (bool, bool))
        ensures
            r == self.side_y(center),
    ;

    /// The quadrants around `center` that the shape reaches, indexed by
    /// `2 * (x above) + (y above)`.
    fn check2(&self, center: &point::Point2, scale: i32) -> (r: [bool; 4])
        ensures
            r@ == quadrants(self.side_x(center.x), self.side_y(center.y)),
    {
        let (lt_x, gt_x) = self.check_x(center.x, scale);
        let (lt_y, gt_y) = self.check_y(center.y, scale);
        let r = [lt_x && lt_y, lt_x && gt_y, gt_x && lt_y, gt_x && gt_y];
        assert(r@ =~= quadrants(self.side_x(center.x), self.side_y(center.y)));
        r
    }
}

/// As `CheckRange2`, with the third axis.
pub trait CheckRange3: CheckRange2 {
    spec fn side_z(&self, center: i32) -> (bool, bool);

    fn check_z(&self, center: i32, scale: i32) -> (r: (bool, bool))
        ensures
            r == self.side_z(center),
    ;

    /// The octants around `center` that the shape reaches, indexed by
    /// `4 * (x above) + 2 * (y above) + (z above)`.
    fn check3(&self, center: &point::Point3, scale: i32) -> (r: [bool; 8])
        ensures
            r@ == octants(self.side_x(center.x), self.side_y(center.y), self.side_z(center.z)),
    {
        let (lt_x, gt_x) = self.check_x(center.x, scale);
        let (lt_y, gt_y) = self.check_y(center.y, scale);
        let (lt_z, gt_z) = self.check_z(center.z, scale);
        let r = [
            lt_x && lt_y && lt_z,
            lt_x && lt_y && gt_z,
            lt_x && gt_y && lt_z,
            lt_x && gt_y && gt_z,
            gt_x && lt_y && lt_z,
            gt_x && lt_y && gt_z,
            gt_x && gt_y && lt_z,
            gt_x && gt_y && gt_z,
        ];
        assert(r@ =~= octants(
            self.side_x(center.x),
            self.side_y(center.y),
            self.side_z(center.z),
        ));
        r
    }
}

/// The shape lies somewhere: on each axis, whatever the plane, part of the
/// shape is at or below the plane or part of it is above.
pub open spec fn located<Q: CheckRange3>(shape: Q) -> bool {
    &&& forall|c: i32| (#[trigger] shape.side_x(c)).0 || shape.side_x(c).1
    &&& forall|c: i32| (#[trigger] shape.side_y(c)).0 || shape.side_y(c).1
    &&& forall|c: i32| (#[trigger] shape.side_z(c)).0 || shape.side_z(c).1
}

/// An octant that a shape reaches, if it reaches any: the lowest on each
/// axis.
pub open spec fn some_octant(x: (bool, bool), y: (bool, bool), z: (bool, bool)) -> int {
    (if x.0 {
        0int
    } else {
        4int
    }) + (if y.0 {
        0int
    } else {
        2int
    }) + (if z.0 {
        0int
    } else {
        1int
    })
}

/// A shape that lies somewhere reaches an octant around every point.
pub proof fn lemma_located_reaches<Q: CheckRange3>(shape: Q, centre: point::Point3)
    requires
        located(shape),
    ensures
        ({
            let x = shape.side_x(centre.x);
            let y = shape.side_y(centre.y);
            let z = shape.side_z(centre.z);
            &&& 0 <= some_octant(x, y, z) < 8
            &&& octants(x, y, z)[some_octant(x, y, z)]
        }),
{
}

/// One flag of a pair: the first for "below", the second for "above".
pub open spec fn pick(side: (bool, bool), above: bool) -> bool {
    if above {
        side.1
    } else {
        side.0
    }
}

/// The four quadrant flags that two axis tests give.
pub open spec fn quadrants(x: (bool, bool), y: (bool, bool)) -> Seq<bool> {
    Seq::new(4, |i: int| pick(x, i / 2 % 2 == 1) && pick(y, i % 2 == 1))
}

/// The eight octant flags that three axis tests give: bit 2 of the index is
/// set for the part above in x, bit 1 in y, bit 0 in z.
pub open spec fn octants(x: (bool, bool), y: (bool, bool), z: (bool, bool)) -> Seq<bool> {
    Seq::new(
        8,
        |i: int| pick(x, i / 4 % 2 == 1) && pick(y, i / 2 % 2 == 1) && pick(z, i % 2 == 1),
    )
}

} // verus!
