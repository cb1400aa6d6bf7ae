use std::collections::HashSet;

use cgmath::{EuclideanSpace, InnerSpace, Point3, Vector3};
use collision::bvh::{BvhBuilder, Corner};
use collision::morton::{interleave3, ToMorton};
use collision::{Center, Intersects, Max, Merge, Min};

const SIZE: i32 = 10;

// The hierarchy takes any shape that can be merged and tested for overlap.
// Here it is built over spheres with floating-point coordinates. Each trait
// asks for the meaning of a method beside the method; for these shapes the
// two are the same computation.

#[derive(Clone, Copy, Debug, PartialEq)]
struct Pt(Point3<f32>);

#[derive(Clone, Copy, Debug, PartialEq)]
struct PerAxis(Vector3<f32>);

impl Corner for Pt {
    type Scale = PerAxis;

    fn origin() -> Pt {
        Pt(Point3::origin())
    }

    fn min(&self, other: &Pt) -> Pt {
        Pt(Point3::new(self.0.x.min(other.0.x), self.0.y.min(other.0.y), self.0.z.min(other.0.z)))
    }

    fn max(&self, other: &Pt) -> Pt {
        Pt(Point3::new(self.0.x.max(other.0.x), self.0.y.max(other.0.y), self.0.z.max(other.0.z)))
    }

    fn grid_scale(&self, max: &Pt) -> PerAxis {
        let extent = max.0 - self.0;
        PerAxis(Vector3::new(1023. / extent.x, 1023. / extent.y, 1023. / extent.z))
    }

    fn zero_corner() -> Pt {
        Pt::origin()
    }

    fn lower_of(&self, other: &Pt) -> Pt {
        Corner::min(self, other)
    }

    fn upper_of(&self, other: &Pt) -> Pt {
        Corner::max(self, other)
    }

    fn scale_over(&self, max: &Pt) -> PerAxis {
        self.grid_scale(max)
    }
}

impl ToMorton<Pt, PerAxis> for Pt {
    fn to_morton(&self, base: &Pt, scale: &PerAxis) -> u32 {
        let d = self.0 - base.0;
        interleave3((d.x * scale.0.x) as u32, (d.y * scale.0.y) as u32, (d.z * scale.0.z) as u32)
    }

    fn morton(&self, base: &Pt, scale: &PerAxis) -> u32 {
        self.to_morton(base, scale)
    }
}

#[derive(Clone, Copy, Debug, PartialEq)]
struct Sphere {
    center: Point3<f32>,
    radius: f32,
}

impl Sphere {
    fn new(center: Point3<f32>, size: f32) -> Sphere {
        Sphere { center, radius: size }
    }
}

impl Default for Sphere {
    fn default() -> Sphere {
        Sphere { center: Point3::origin(), radius: 0. }
    }
}

impl Merge for Sphere {
    fn merge(&self, other: &Sphere) -> Sphere {
        let diff = other.center - self.center;
        let dist = diff.magnitude();

        if dist + self.radius <= other.radius {
            *other
        } else if dist + other.radius <= self.radius {
            *self
        } else {
            let rm = (dist + self.radius + other.radius) / 2.;
            let u = diff.normalize();
            let cm = self.center + u * (rm - self.radius);
            Sphere { center: cm, radius: rm }
        }
    }

    fn envelope(&self, other: &Sphere) -> Sphere {
        self.merge(other)
    }
}

impl Center<Pt> for Sphere {
    fn center(&self) -> Pt {
        Pt(self.center)
    }

    fn midpoint(&self) -> Pt {
        Pt(self.center)
    }
}

impl Intersects<Sphere> for Sphere {
    fn intersect(&self, other: &Sphere) -> bool {
        let diff = self.center - other.center;
        let dist = diff.magnitude();

        dist < self.radius + other.radius
    }

    fn overlaps(&self, other: &Sphere) -> bool {
        self.intersect(other)
    }
}

impl Max<Pt> for Sphere {
    fn max(&self) -> Pt {
        Pt(self.center + Vector3::new(self.radius, self.radius, self.radius))
    }

    fn upper_corner(&self) -> Pt {
        Max::max(self)
    }
}

impl Min<Pt> for Sphere {
    fn min(&self) -> Pt {
        Pt(self.center + Vector3::new(-self.radius, -self.radius, -self.radius))
    }

    fn lower_corner(&self) -> Pt {
        Min::min(self)
    }
}

#[test]
fn test_sphere_bvh_build() {
    let mut builder: BvhBuilder<(i32, i32, i32), Sphere, Pt> = BvhBuilder::new();
    for x in -SIZE..=SIZE {
        for y in -SIZE..=SIZE {
            for z in -SIZE..=SIZE {
                let xf = x as f32;
                let yf = y as f32;
                let zf = z as f32;
                let sphere = Sphere::new(Point3::new(xf, yf, zf), 0.25);
                builder.add(sphere, (x, y, x));
            }
        }
    }

    let _ = builder.build();
}

#[test]
fn test_sphere_bvh_collide_all() {
    let mut set = HashSet::new();

    let mut builder: BvhBuilder<(i32, i32, i32), Sphere, Pt> = BvhBuilder::new();
    for x in -SIZE..=SIZE {
        for y in -SIZE..=SIZE {
            for z in -SIZE..=SIZE {
                let xf = x as f32;
                let yf = y as f32;
                let zf = z as f32;
                let sphere = Sphere::new(Point3::new(xf, yf, zf), 0.25);
                builder.add(sphere, (x, y, z));
                set.insert((x, y, z));
            }
        }
    }

    let sphere = Sphere::new(
        Point3::new(0f32, 0f32, 0f32),
        ((SIZE * SIZE + SIZE * SIZE + SIZE * SIZE) as f32).sqrt(),
    );

    let bvh = builder.build();
    let mut iter = bvh.collision_iter(&sphere);
    while let Some((_, dat)) = iter.next() {
        assert!(set.remove(dat));
    }

    assert!(set.len() == 0);
}

#[test]
fn test_sphere_bvh_collide_half() {
    let mut set = HashSet::new();
    let mut builder: BvhBuilder<(i32, i32, i32), Sphere, Pt> = BvhBuilder::new();

    let check = Sphere::new(
        Point3::new(0f32, 0f32, 0f32),
        0.5 * ((SIZE * SIZE + SIZE * SIZE + SIZE * SIZE) as f32).sqrt(),
    );

    for x in -SIZE..=SIZE {
        for y in -SIZE..=SIZE {
            for z in -SIZE..=SIZE {
                let xf = x as f32;
                let yf = y as f32;
                let zf = z as f32;
                let sphere = Sphere::new(Point3::new(xf, yf, zf), 0.25);
                builder.add(sphere, (x, y, z));
                if sphere.intersect(&check) {
                    set.insert((x, y, z));
                }
            }
        }
    }

    let bvh = builder.build();
    let mut iter = bvh.collision_iter(&check);
    while let Some((_, dat)) = iter.next() {
        assert!(set.remove(dat));
    }

    assert!(set.len() == 0);
}

#[test]
fn tests_test_to_morton3() {
    let base = Pt(Point3::new(0f32, 0., 0.));
    let scale = PerAxis(Vector3::new(1023f32, 1023., 1023.));
    let full = Pt(Point3::new(1f32, 1f32, 1f32));
    let zero = Pt(Point3::new(0f32, 0f32, 0f32));
    let half = Pt(Point3::new(0.5f32, 0.5f32, 0.5f32));
    let x_full = Pt(Point3::new(1f32, 0f32, 0f32));
    let y_full = Pt(Point3::new(0f32, 1f32, 0f32));
    let z_full = Pt(Point3::new(0f32, 0f32, 1f32));

    assert!(0b111_111_111_111_111_111_111_111_111_111 == full.to_morton(&base, &scale));
    assert!(0b000_000_000_000_000_000_000_000_000_000 == zero.to_morton(&base, &scale));
    assert!(0b000_111_111_111_111_111_111_111_111_111 == half.to_morton(&base, &scale));
    assert!(0b001_001_001_001_001_001_001_001_001_001 == z_full.to_morton(&base, &scale));
    assert!(0b010_010_010_010_010_010_010_010_010_010 == y_full.to_morton(&base, &scale));
    assert!(0b100_100_100_100_100_100_100_100_100_100 == x_full.to_morton(&base, &scale));
}

#[test]
fn sphere_merge_of_equal_spheres_is_that_sphere() {
    let a = Sphere::new(Point3::new(1f32, 2f32, 3f32), 0.5);
    let m = a.merge(&a);
    assert_eq!(m, a);
    let inner = Sphere::new(Point3::new(1f32, 2f32, 3f32), 0.25);
    assert_eq!(a.merge(&inner), a);
    assert_eq!(inner.merge(&a), a);
    let touching = Sphere::new(Point3::new(1.25f32, 2f32, 3f32), 0.25);
    assert_eq!(a.merge(&touching), a);
    assert_eq!(touching.merge(&a), a);
}

#[test]
fn sphere_bvh_of_one_sphere() {
    let only = Sphere::new(Point3::new(0f32, 0f32, 0f32), 1.);
    let mut builder: BvhBuilder<u8, Sphere, Pt> = BvhBuilder::new();
    builder.add(only, 3);
    let bvh = builder.build();
    let mut iter = bvh.collision_iter(&only);
    assert_eq!(iter.next(), Some((&only, &3)));
    assert!(iter.next().is_none());
}
