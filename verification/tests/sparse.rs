use collision::aabb::Aabb3;
use collision::point::Point3;
use collision::sparse::{Branch, Sparse};

const SIZE: i32 = 5;

// Points: coordinates are in 256ths of a unit, so that the cube of half
// side 5 can be halved eight times.
const FINE: i32 = 256;

// Boxes: coordinates are in 320ths of a unit, so that the cube of half side
// 40 can be halved eight times and a box of side 0.1 has whole corners.
const GRAIN: i32 = 320;

fn point(x: i32, y: i32, z: i32) -> Point3 {
    Point3::new(x * FINE, y * FINE, z * FINE)
}

fn unit_box(x: i32, y: i32, z: i32) -> Aabb3 {
    Aabb3::new(
        Point3::new((5 * x - 1) * GRAIN, (5 * y - 1) * GRAIN, (5 * z - 1) * GRAIN),
        Point3::new((5 * x + 1) * GRAIN, (5 * y + 1) * GRAIN, (5 * z + 1) * GRAIN),
    )
}

#[test]
fn test_insert_points() {
    let mut oct: Sparse<Point3, (i32, i32, i32)> = Sparse::new(SIZE * FINE, 8);

    for x in -SIZE..SIZE + 1 {
        for y in -SIZE..SIZE + 1 {
            for z in -SIZE..SIZE + 1 {
                oct.insert(point(x, y, z), (x, y, z));
            }
        }
    }

    for x in -SIZE..SIZE + 1 {
        for y in -SIZE..SIZE + 1 {
            for z in -SIZE..SIZE + 1 {
                let found = oct.quary(&point(x, y, z));
                assert!(found.len() > 0);
                for (_, value) in found {
                    assert!(value == (x, y, z));
                }
            }
        }
    }
}

#[test]
fn test_remove_points() {
    let mut oct: Sparse<Point3, (i32, i32, i32)> = Sparse::new(SIZE * FINE, 8);

    for x in -SIZE..SIZE + 1 {
        for y in -SIZE..SIZE + 1 {
            for z in -SIZE..SIZE + 1 {
                oct.insert(point(x, y, z), (x, y, z));
            }
        }
    }

    for x in -SIZE..SIZE + 1 {
        for y in -SIZE..SIZE + 1 {
            for z in -SIZE..SIZE + 1 {
                for (_, value) in oct.quary(&point(x, y, z)) {
                    assert!(value == (x, y, z));
                }
            }
        }
    }

    for x in 0..SIZE + 1 {
        for y in -SIZE..SIZE + 1 {
            for z in -SIZE..SIZE + 1 {
                oct.remove(point(x, y, z));
            }
        }
    }

    for x in -SIZE..SIZE + 1 {
        for y in -SIZE..SIZE + 1 {
            for z in -SIZE..SIZE + 1 {
                let found = oct.quary(&point(x, y, z));
                assert_eq!(found.len() > 0, x < 0);
                for (_, value) in found {
                    let (x, _, _) = value;
                    assert!(x < 0);
                }
            }
        }
    }
}

#[test]
fn test_insert_aabb() {
    let mut oct: Sparse<Aabb3, (i32, i32, i32)> = Sparse::new(8 * SIZE * GRAIN, 8);

    for x in -SIZE..SIZE + 1 {
        for y in -SIZE..SIZE + 1 {
            for z in -SIZE..SIZE + 1 {
                oct.insert(unit_box(x, y, z), (x, y, z));
            }
        }
    }

    for x in -SIZE..SIZE + 1 {
        for y in -SIZE..SIZE + 1 {
            for z in -SIZE..SIZE + 1 {
                let found = oct.quary(&unit_box(x, y, z));
                assert!(found.len() > 0);
                for (_, value) in found {
                    assert!(value == (x, y, z));
                }
            }
        }
    }
}

#[test]
fn test_remove_aabb() {
    let mut oct: Sparse<Aabb3, (i32, i32, i32)> = Sparse::new(8 * SIZE * GRAIN, 8);

    for x in -SIZE..SIZE + 1 {
        for y in -SIZE..SIZE + 1 {
            for z in -SIZE..SIZE + 1 {
                oct.insert(unit_box(x, y, z), (x, y, z));
            }
        }
    }

    for x in -SIZE..SIZE + 1 {
        for y in -SIZE..SIZE + 1 {
            for z in -SIZE..SIZE + 1 {
                for (_, value) in oct.quary(&unit_box(x, y, z)) {
                    assert!(value == (x, y, z));
                }
            }
        }
    }

    for x in 0..SIZE + 1 {
        for y in -SIZE..SIZE + 1 {
            for z in -SIZE..SIZE + 1 {
                oct.remove(unit_box(x, y, z));
            }
        }
    }

    for x in -SIZE..SIZE + 1 {
        for y in -SIZE..SIZE + 1 {
            for z in -SIZE..SIZE + 1 {
                let probe = Aabb3::new(
                    Point3::new(x * GRAIN, y * GRAIN, z * GRAIN),
                    Point3::new(x * GRAIN + 32, y * GRAIN + 32, z * GRAIN + 32),
                );
                for (_, value) in oct.quary(&probe) {
                    let (x, _, _) = value;
                    assert!(x < 0);
                }
            }
        }
    }
}

#[test]
fn sparse_round_trip_finds_the_value() {
    let mut oct: Sparse<Aabb3, u32> = Sparse::new(1024, 4);
    let keys = [
        Aabb3::new(Point3::new(-10, -10, -10), Point3::new(10, 10, 10)),
        Aabb3::new(Point3::new(100, 100, 100), Point3::new(120, 130, 140)),
        Aabb3::new(Point3::new(-1000, 5, 5), Point3::new(-900, 6, 6)),
        Aabb3::new(Point3::new(0, 0, 0), Point3::new(0, 0, 0)),
        Aabb3::new(Point3::new(5000, 5000, 5000), Point3::new(6000, 6000, 6000)),
    ];
    for (i, key) in keys.iter().enumerate() {
        oct.insert(*key, i as u32);
        assert!(oct.quary(key).contains(&(*key, i as u32)));
    }
}

#[test]
fn sparse_same_point_twice_collides() {
    let mut oct: Sparse<Point3, u32> = Sparse::new(64, 3);
    let p = Point3::new(3, 3, 3);
    oct.insert(p, 1);
    oct.insert(p, 2);
    oct.insert(p, 3);
    assert_eq!(oct.quary(&p), vec![(p, 1), (p, 2), (p, 3)]);
    oct.remove(p);
    assert_eq!(oct.quary(&p), vec![(p, 2), (p, 3)]);
    oct.remove(Point3::new(3, 3, 3));
    oct.remove(p);
    assert_eq!(oct.quary(&p), vec![]);
    oct.remove(p);
    assert_eq!(oct.quary(&p), vec![]);
}

#[test]
fn sparse_depth_zero_never_divides() {
    let mut oct: Sparse<Point3, u32> = Sparse::new(64, 0);
    oct.insert(Point3::new(1, 1, 1), 1);
    oct.insert(Point3::new(-50, 2, 9), 2);
    oct.insert(Point3::new(7, 7, 7), 3);
    let found = oct.quary(&Point3::new(60, 60, 60));
    assert_eq!(
        found,
        vec![(Point3::new(1, 1, 1), 1), (Point3::new(-50, 2, 9), 2), (Point3::new(7, 7, 7), 3)]
    );
}

#[test]
fn sparse_leaf_is_removed_whatever_the_key() {
    let mut oct: Sparse<Point3, u32> = Sparse::new(64, 3);
    oct.insert(Point3::new(1, 1, 1), 1);
    oct.remove(Point3::new(-20, 30, 5));
    assert_eq!(oct.quary(&Point3::new(1, 1, 1)), vec![]);
}

#[test]
fn sparse_query_follows_the_octants() {
    let mut oct: Sparse<Point3, u32> = Sparse::new(64, 3);
    oct.insert(Point3::new(-10, -10, -10), 0);
    oct.insert(Point3::new(10, 10, 10), 7);
    oct.insert(Point3::new(10, -10, -10), 4);
    oct.insert(Point3::new(-10, -10, 10), 1);
    let all = Aabb3::new(Point3::new(-64, -64, -64), Point3::new(64, 64, 64));
    let tags: Vec<u32> = oct.quary(&all).iter().map(|e| e.1).collect();
    assert_eq!(tags, vec![0, 1, 4, 7]);
    let low = Aabb3::new(Point3::new(-64, -64, -64), Point3::new(0, 0, 0));
    let tags: Vec<u32> = oct.quary(&low).iter().map(|e| e.1).collect();
    assert_eq!(tags, vec![0]);
}

#[test]
fn sparse_copies_share_until_changed() {
    let mut first: Sparse<Point3, u32> = Sparse::new(64, 4);
    for i in 0..20 {
        first.insert(Point3::new(3 * i - 30, 2 * i - 20, i), i as u32);
    }
    let second = first.clone();
    let probe = Point3::new(-30, -20, 0);
    first.remove(probe);
    first.insert(Point3::new(40, 40, 40), 99);
    assert_eq!(second.quary(&probe), vec![(probe, 0)]);
    assert_eq!(second.quary(&Point3::new(40, 40, 40)).iter().filter(|e| e.1 == 99).count(), 0);
    assert_eq!(first.quary(&probe), vec![]);
    assert!(first.quary(&Point3::new(40, 40, 40)).contains(&(Point3::new(40, 40, 40), 99)));
    let mut third = second.clone();
    third.insert(probe, 100);
    assert_eq!(second.quary(&probe), vec![(probe, 0)]);
    assert_eq!(third.quary(&probe), vec![(probe, 0), (probe, 100)]);
}

#[test]
fn branch_counts_its_children() {
    let branch: Branch<Point3, u32> = Branch::new();
    assert_eq!(branch.count(), (0, 0));
}
