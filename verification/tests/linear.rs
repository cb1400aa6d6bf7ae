use collision::aabb::Aabb3;
use collision::linear::{calc_size, Linear};
use collision::point::Point3;

const SIZE: i32 = 3;

// Coordinates are in quarters of a unit, so that the cube can be halved
// twice.
const FINE: i32 = 4;

#[test]
fn test_test_insert_points() {
    let mut oct: Linear<Point3, (i32, i32, i32)> = Linear::new(SIZE * FINE, 3);

    for x in -SIZE..SIZE {
        for y in -SIZE..SIZE {
            for z in -SIZE..SIZE {
                let point = Point3::new((x + 1) * FINE, (y + 1) * FINE, (z + 1) * FINE);
                oct.insert(point, (x, y, z));
            }
        }
    }

    for x in -SIZE..SIZE {
        for y in -SIZE..SIZE {
            for z in -SIZE..SIZE {
                let point = Point3::new((x + 1) * FINE, (y + 1) * FINE, (z + 1) * FINE);
                let found = oct.quary(&point);
                assert!(found.len() > 0);
                for (_, value) in found {
                    assert!((x, y, z) == value);
                }
            }
        }
    }
}

#[test]
fn test_test_insert_aabb() {
    let mut oct: Linear<Aabb3, (i32, i32, i32)> = Linear::new(5 * SIZE * FINE, 3);

    for x in -SIZE..SIZE + 1 {
        for y in -SIZE..SIZE + 1 {
            for z in -SIZE..SIZE + 1 {
                let point = Aabb3::new(
                    Point3::new(5 * x * FINE, 5 * y * FINE, 5 * z * FINE),
                    Point3::new((5 * x + 1) * FINE, (5 * y + 1) * FINE, (5 * z + 1) * FINE),
                );
                oct.insert(point, (x, y, z));
            }
        }
    }

    for x in -SIZE..SIZE + 1 {
        for y in -SIZE..SIZE + 1 {
            for z in -SIZE..SIZE + 1 {
                let point = Aabb3::new(
                    Point3::new(5 * x * FINE, 5 * y * FINE, 5 * z * FINE),
                    Point3::new((5 * x + 1) * FINE, (5 * y + 1) * FINE, (5 * z + 1) * FINE),
                );
                let found = oct.quary(&point);
                assert!(found.len() > 0);
                for (_, value) in found {
                    assert!(value == (x, y, z));
                }
            }
        }
    }
}

#[test]
fn linear_sizes() {
    assert_eq!(calc_size(0), 0);
    assert_eq!(calc_size(1), 8);
    assert_eq!(calc_size(2), 72);
    assert_eq!(calc_size(3), 584);
    assert_eq!(calc_size(4), 4680);
}

#[test]
fn linear_round_trip_finds_the_value() {
    let mut oct: Linear<Aabb3, u32> = Linear::new(1024, 4);
    let keys = [
        Aabb3::new(Point3::new(-10, -10, -10), Point3::new(10, 10, 10)),
        Aabb3::new(Point3::new(100, 100, 100), Point3::new(120, 130, 140)),
        Aabb3::new(Point3::new(-1000, 5, 5), Point3::new(-900, 6, 6)),
        Aabb3::new(Point3::new(0, 0, 0), Point3::new(0, 0, 0)),
        Aabb3::new(Point3::new(5000, 5000, 5000), Point3::new(6000, 6000, 6000)),
    ];
    for (i, key) in keys.iter().enumerate() {
        oct.insert(*key, i as u32);
        assert!(oct.quary(key).contains(&(*key, i as u32)));
    }
}

#[test]
fn linear_remove_takes_out_equal_keys() {
    let mut oct: Linear<Point3, u32> = Linear::new(64, 3);
    let p = Point3::new(3, 3, 3);
    let q = Point3::new(-40, 9, 9);
    oct.insert(p, 1);
    oct.insert(q, 5);
    oct.remove(Point3::new(4, 4, 4));
    assert_eq!(oct.quary(&p), vec![(p, 1)]);
    oct.insert(p, 2);
    oct.insert(p, 3);
    assert_eq!(oct.quary(&p), vec![(p, 1), (p, 2), (p, 3)]);
    oct.remove(p);
    assert_eq!(oct.quary(&p), vec![(p, 2), (p, 3)]);
    oct.remove(p);
    oct.remove(p);
    assert_eq!(oct.quary(&p), vec![]);
    oct.remove(p);
    assert_eq!(oct.quary(&p), vec![]);
    assert_eq!(oct.quary(&q), vec![(q, 5)]);
    oct.remove(q);
    assert_eq!(oct.quary(&q), vec![]);
}

#[test]
fn linear_last_level_collects() {
    let mut oct: Linear<Point3, u32> = Linear::new(64, 1);
    oct.insert(Point3::new(1, 1, 1), 1);
    oct.insert(Point3::new(50, 2, 9), 2);
    oct.insert(Point3::new(7, 7, 7), 3);
    let found = oct.quary(&Point3::new(60, 60, 60));
    assert_eq!(
        found,
        vec![(Point3::new(1, 1, 1), 1), (Point3::new(50, 2, 9), 2), (Point3::new(7, 7, 7), 3)]
    );
    assert_eq!(oct.quary(&Point3::new(-1, 60, 60)), vec![]);
}

#[test]
fn linear_divides_when_keys_are_apart() {
    let mut oct: Linear<Point3, u32> = Linear::new(64, 3);
    oct.insert(Point3::new(10, 10, 10), 1);
    oct.insert(Point3::new(50, 50, 50), 2);
    assert_eq!(oct.quary(&Point3::new(10, 10, 10)), vec![(Point3::new(10, 10, 10), 1)]);
    assert_eq!(oct.quary(&Point3::new(50, 50, 50)), vec![(Point3::new(50, 50, 50), 2)]);
    assert_eq!(oct.quary(&Point3::new(40, 40, 40)), vec![(Point3::new(50, 50, 50), 2)]);
}

#[test]
fn linear_copies_are_apart() {
    let mut first: Linear<Point3, u32> = Linear::new(64, 2);
    first.insert(Point3::new(1, 1, 1), 1);
    let second = first.clone();
    first.insert(Point3::new(1, 1, 1), 2);
    assert_eq!(second.quary(&Point3::new(1, 1, 1)), vec![(Point3::new(1, 1, 1), 1)]);
    assert_eq!(first.quary(&Point3::new(1, 1, 1)).len(), 2);
}
