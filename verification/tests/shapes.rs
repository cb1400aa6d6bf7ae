use collision::aabb::{Aabb, Aabb2, Aabb3};
use collision::point::{Point2, Point3, Vector2, Vector3};
use collision::sphere::{Circle, Sphere};
use collision::{Center, CheckRange2, CheckRange3, Intersects, Max, Merge, Min};

// Coordinates are in tenths of a unit: the box from (0, 0) to (1, 1) is the
// box from (0, 0) to (10, 10).
#[test]
fn test_aabb2_collide() {
    let a = Aabb2::new(Point2::new(0, 0), Point2::new(10, 10));

    let table = [
        (Point2::new(9, 9), true),
        (Point2::new(9, 11), false),
        (Point2::new(11, 9), false),
        (Point2::new(11, 11), false),
        (Point2::new(-11, -11), false),
        (Point2::new(-9, -11), false),
        (Point2::new(-11, -9), false),
        (Point2::new(-9, -9), true),
    ];

    for &(point, should_intersect) in table.iter() {
        let b = Aabb2::new(point, Point2::new(point.x + 10, point.y + 10));
        assert!(a.intersect(&b) == should_intersect);
    }
}

#[test]
fn test_aabb3_collide() {
    let a = Aabb3::new(Point3::new(0, 0, 0), Point3::new(10, 10, 10));

    let table = [
        (Point3::new(9, 9, 9), true),
        (Point3::new(9, 11, 9), false),
        (Point3::new(11, 9, 9), false),
        (Point3::new(11, 11, 9), false),
        (Point3::new(9, 9, 11), false),
        (Point3::new(9, 11, 11), false),
        (Point3::new(11, 9, 11), false),
        (Point3::new(11, 11, 11), false),
        (Point3::new(-11, -11, -11), false),
        (Point3::new(-9, -11, -11), false),
        (Point3::new(-11, -9, -11), false),
        (Point3::new(-9, -9, -11), false),
        (Point3::new(-11, -11, -9), false),
        (Point3::new(-9, -11, -9), false),
        (Point3::new(-11, -9, -9), false),
        (Point3::new(-9, -9, -9), true),
    ];

    for &(point, should_intersect) in table.iter() {
        let b = Aabb3::new(point, Point3::new(point.x + 10, point.y + 10, point.z + 10));
        assert!(a.intersect(&b) == should_intersect);
    }
}

#[test]
fn test_point2_collide() {
    let a = Point2::new(1, 1);

    let table = [
        (Point2::new(1, 1), true),
        (Point2::new(0, 1), false),
        (Point2::new(1, 0), false),
        (Point2::new(0, 0), false),
    ];

    for &(point, should_intersect) in table.iter() {
        assert!(a.intersect(&point) == should_intersect);
    }
}

#[test]
fn test_point3_collide() {
    let a = Point3::new(1, 1, 1);

    let table = [
        (Point3::new(1, 1, 1), true),
        (Point3::new(0, 1, 1), false),
        (Point3::new(1, 0, 1), false),
        (Point3::new(0, 0, 1), false),
        (Point3::new(1, 1, 0), false),
        (Point3::new(0, 1, 0), false),
        (Point3::new(1, 0, 0), false),
        (Point3::new(0, 0, 0), false),
    ];

    for &(point, should_intersect) in table.iter() {
        assert!(a.intersect(&point) == should_intersect);
    }
}

#[test]
fn aabb_new_sorts_corners() {
    let b = Aabb3::new(Point3::new(5, -2, 9), Point3::new(1, 4, -9));
    assert_eq!(b.min, Point3::new(1, -2, -9));
    assert_eq!(b.max, Point3::new(5, 4, 9));
    let c = Aabb2::new(Point2::new(3, 0), Point2::new(-3, 1));
    assert_eq!(c.min, Point2::new(-3, 0));
    assert_eq!(c.max, Point2::new(3, 1));
}

#[test]
fn aabb_contains_is_half_open() {
    let b = Aabb2::new(Point2::new(0, 0), Point2::new(4, 4));
    assert!(b.contains(&Point2::new(0, 0)));
    assert!(b.contains(&Point2::new(3, 3)));
    assert!(!b.contains(&Point2::new(4, 0)));
    assert!(!b.contains(&Point2::new(0, 4)));
    assert!(!b.contains(&Point2::new(-1, 2)));
    let c = Aabb3::new(Point3::new(0, 0, 0), Point3::new(4, 4, 4));
    assert!(c.contains(&Point3::new(0, 0, 0)));
    assert!(!c.contains(&Point3::new(0, 0, 4)));
}

#[test]
fn aabb_touching_boxes_intersect() {
    let a = Aabb2::new(Point2::new(0, 0), Point2::new(2, 2));
    let b = Aabb2::new(Point2::new(2, 2), Point2::new(5, 5));
    assert!(a.intersect(&b));
    assert!(b.intersect(&a));
}

#[test]
fn aabb_intersect_is_symmetric() {
    let boxes = [
        Aabb3::new(Point3::new(0, 0, 0), Point3::new(3, 3, 3)),
        Aabb3::new(Point3::new(2, -1, 1), Point3::new(6, 1, 2)),
        Aabb3::new(Point3::new(-5, -5, -5), Point3::new(-4, -4, -4)),
        Aabb3::new(Point3::new(3, 3, 3), Point3::new(3, 3, 3)),
    ];
    for a in boxes.iter() {
        for b in boxes.iter() {
            assert_eq!(a.intersect(b), b.intersect(a));
        }
    }
}

#[test]
fn aabb_merge_is_the_envelope() {
    let a = Aabb3::new(Point3::new(0, 0, 0), Point3::new(2, 2, 2));
    let b = Aabb3::new(Point3::new(-1, 1, 5), Point3::new(1, 3, 6));
    let m = a.merge(&b);
    assert_eq!(m.min, Point3::new(-1, 0, 0));
    assert_eq!(m.max, Point3::new(2, 3, 6));
    for p in [a.min, a.max, b.min, b.max].iter() {
        assert!(m.min.x <= p.x && p.x <= m.max.x);
        assert!(m.min.y <= p.y && p.y <= m.max.y);
        assert!(m.min.z <= p.z && p.z <= m.max.z);
    }
    let c = Aabb2::new(Point2::new(0, 0), Point2::new(1, 1));
    let d = Aabb2::new(Point2::new(4, -4), Point2::new(5, -3));
    assert_eq!(c.merge(&d), Aabb2::new(Point2::new(0, -4), Point2::new(5, 1)));
}

#[test]
fn aabb_center_dim_volume() {
    let b = Aabb3::new(Point3::new(-2, 0, 1), Point3::new(4, 3, 5));
    assert_eq!(b.center(), Point3::new(1, 1, 3));
    assert_eq!(b.dim(), Vector3::new(6, 3, 4));
    assert_eq!(b.volume(), 72);
    assert_eq!(Max::max(&b), Point3::new(4, 3, 5));
    assert_eq!(Min::min(&b), Point3::new(-2, 0, 1));
    let c = Aabb2::new(Point2::new(1, 1), Point2::new(4, 6));
    assert_eq!(c.center(), Point2::new(2, 3));
    assert_eq!(c.dim(), Vector2::new(3, 5));
    assert_eq!(c.volume(), 15);
    assert_eq!(*c.aabb_min(), Point2::new(1, 1));
    assert_eq!(*c.aabb_max(), Point2::new(4, 6));
}

#[test]
fn aabb_volume_with_a_flat_side() {
    let b = Aabb3::new(Point3::new(i32::MIN, i32::MIN, 7), Point3::new(-1, -1, 7));
    assert_eq!(b.volume(), 0);
}

#[test]
fn aabb_center_of_the_widest_box() {
    let b = Aabb2::new(Point2::new(i32::MIN, i32::MIN), Point2::new(i32::MAX, i32::MAX));
    assert_eq!(b.center(), Point2::new(-1, -1));
}

#[test]
fn aabb_grow_and_moves() {
    let b = Aabb2::new(Point2::new(0, 0), Point2::new(2, 2));
    assert_eq!(b.grow(&Point2::new(5, -1)), Aabb2::new(Point2::new(0, -1), Point2::new(5, 2)));
    assert_eq!(b.add_v(&Vector2::new(3, -3)), Aabb2::new(Point2::new(3, -3), Point2::new(5, -1)));
    assert_eq!(b.mul_s(-2), Aabb2::new(Point2::new(-4, -4), Point2::new(0, 0)));
    assert_eq!(b.mul_v(&Vector2::new(2, -1)), Aabb2::new(Point2::new(0, -2), Point2::new(4, 0)));
    let c = Aabb3::new(Point3::new(0, 0, 0), Point3::new(1, 1, 1));
    assert_eq!(
        c.grow(&Point3::new(-1, 2, 0)),
        Aabb3::new(Point3::new(-1, 0, 0), Point3::new(1, 2, 1))
    );
    assert_eq!(
        c.add_v(&Vector3::new(1, 2, 3)),
        Aabb3::new(Point3::new(1, 2, 3), Point3::new(2, 3, 4))
    );
    assert_eq!(c.mul_s(3), Aabb3::new(Point3::new(0, 0, 0), Point3::new(3, 3, 3)));
    assert_eq!(
        c.mul_v(&Vector3::new(1, -2, 3)),
        Aabb3::new(Point3::new(0, -2, 0), Point3::new(1, 0, 3))
    );
}

#[test]
fn aabb_from_points() {
    let none: [Point3; 0] = [];
    assert_eq!(Aabb3::from_iter(&none), Aabb3::new(Point3::new(0, 0, 0), Point3::new(0, 0, 0)));
    let one = [Point3::new(4, -4, 2)];
    assert_eq!(Aabb3::from_iter(&one), Aabb3::new(Point3::new(4, -4, 2), Point3::new(4, -4, 2)));
    let many = [Point3::new(4, -4, 2), Point3::new(-1, 0, 9), Point3::new(3, 3, 3)];
    assert_eq!(Aabb3::from_iter(&many), Aabb3::new(Point3::new(-1, -4, 2), Point3::new(4, 3, 9)));
    let flat = [Point2::new(1, 2), Point2::new(-3, 7)];
    assert_eq!(Aabb2::from_iter(&flat), Aabb2::new(Point2::new(-3, 2), Point2::new(1, 7)));
    let nothing: [Point2; 0] = [];
    assert_eq!(Aabb2::from_iter(&nothing), Aabb2::new(Point2::new(0, 0), Point2::new(0, 0)));
}

#[test]
fn aabb_default_is_at_the_origin() {
    assert_eq!(Aabb3::default(), Aabb3::new(Point3::new(0, 0, 0), Point3::new(0, 0, 0)));
    assert_eq!(Aabb2::default(), Aabb2::new(Point2::new(0, 0), Point2::new(0, 0)));
}

#[test]
fn point_sides() {
    let p = Point3::new(1, 2, 3);
    assert_eq!(p.check_x(1, 0), (true, false));
    assert_eq!(p.check_x(0, 0), (false, true));
    assert_eq!(p.check_y(5, 0), (true, false));
    assert_eq!(p.check_z(2, 0), (false, true));
    let mask = p.check3(&Point3::new(0, 2, 5), 1);
    assert_eq!(mask, [false, false, false, false, true, false, false, false]);
    let quads = p.check2(&Point2::new(1, 1), 1);
    assert_eq!(quads, [false, true, false, false]);
}

#[test]
fn box_sides_straddle() {
    let b = Aabb3::new(Point3::new(-1, -1, 1), Point3::new(1, 1, 2));
    assert_eq!(b.check_x(0, 0), (true, true));
    assert_eq!(b.check_z(0, 0), (false, true));
    let mask = b.check3(&Point3::new(0, 0, 0), 1);
    assert_eq!(mask, [false, true, false, true, false, true, false, true]);
}

#[test]
fn sphere_intersect_is_strict() {
    let a = Sphere::new(Point3::new(0, 0, 0), 5);
    assert!(a.intersect(&Sphere::new(Point3::new(3, 4, 0), 1)));
    assert!(!a.intersect(&Sphere::new(Point3::new(6, 8, 0), 5)));
    assert!(a.intersect(&Sphere::new(Point3::new(6, 8, 0), 6)));
    assert!(!a.intersect(&Sphere::new(Point3::new(0, 0, 0), -5)));
    let far = Sphere::new(Point3::new(i32::MIN, i32::MIN, i32::MIN), i32::MAX);
    let off = Sphere::new(Point3::new(i32::MAX, i32::MAX, i32::MAX), i32::MAX);
    assert!(!far.intersect(&off));
    let c = Circle::new(Point2::new(0, 0), 1);
    assert!(c.intersect(&Circle::new(Point2::new(1, 1), 1)));
    assert!(!c.intersect(&Circle::new(Point2::new(2, 0), 1)));
}

#[test]
fn sphere_corners_and_sides() {
    let s = Sphere::new(Point3::new(1, 2, 3), 2);
    assert_eq!(s.center(), Point3::new(1, 2, 3));
    assert_eq!(Max::max(&s), Point3::new(3, 4, 5));
    assert_eq!(Min::min(&s), Point3::new(-1, 0, 1));
    assert_eq!(s.check_x(3, 0), (true, false));
    assert_eq!(s.check_x(2, 0), (true, true));
    assert_eq!(s.check_y(-1, 0), (false, true));
    assert_eq!(s.check_z(1, 0), (true, true));
    let edge = Sphere::new(Point3::new(i32::MAX, 0, i32::MIN), 10);
    assert_eq!(Max::max(&edge), Point3::new(i32::MAX, 10, i32::MIN + 10));
    assert_eq!(Min::min(&edge), Point3::new(i32::MAX - 10, -10, i32::MIN));
    let c = Circle::new(Point2::new(0, 0), 3);
    assert_eq!(Max::max(&c), Point2::new(3, 3));
    assert_eq!(Min::min(&c), Point2::new(-3, -3));
    assert_eq!(c.center(), Point2::new(0, 0));
    assert_eq!(c.check_x(0, 0), (true, true));
    assert_eq!(c.check_y(3, 0), (true, false));
    assert_eq!(Sphere::default(), Sphere::new(Point3::new(0, 0, 0), 0));
    assert_eq!(Circle::default(), Circle::new(Point2::new(0, 0), 0));
}
