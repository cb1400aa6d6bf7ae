use std::collections::HashSet;

use collision::aabb::{Aabb2, Aabb3};
use collision::bvh::{Bvh, BvhBuilder};
use collision::point::{Point2, Point3};
use collision::{Center, Intersects};

const SIZE: i32 = 10;

// Coordinates are in quarters of a unit: the box of half side 0.25 around
// (x, y, z) reaches from 4x - 1 to 4x + 1.
fn lattice_box(x: i32, y: i32, z: i32) -> Aabb3 {
    Aabb3::new(
        Point3::new(4 * x - 1, 4 * y - 1, 4 * z - 1),
        Point3::new(4 * z + 1, 4 * y + 1, 4 * z + 1),
    )
}

fn lattice() -> BvhBuilder<(i32, i32, i32), Aabb3, Point3> {
    let mut builder = BvhBuilder::new();
    for x in -SIZE..=SIZE {
        for y in -SIZE..=SIZE {
            for z in -SIZE..=SIZE {
                builder.add(lattice_box(x, y, z), (x, y, z));
            }
        }
    }
    builder
}

fn collect<'a>(bvh: &'a Bvh<(i32, i32, i32), Aabb3>, query: &'a Aabb3) -> Vec<(Aabb3, (i32, i32, i32))> {
    let mut out = Vec::new();
    let mut iter = bvh.collision_iter(query);
    while let Some((shape, dat)) = iter.next() {
        out.push((*shape, *dat));
    }
    assert!(iter.next().is_none());
    out
}

#[test]
fn test_build_bvh() {
    let mut builder = BvhBuilder::new();
    for x in -SIZE..=SIZE {
        for y in -SIZE..=SIZE {
            for z in -SIZE..=SIZE {
                builder.add(lattice_box(x, y, z), (x, y, x));
            }
        }
    }

    let _: Bvh<(i32, i32, i32), Aabb3> = builder.build();
}

#[test]
fn test_aabb_bvh_build() {
    let mut builder = BvhBuilder::new();
    for x in -SIZE..=SIZE {
        for y in -SIZE..=SIZE {
            for z in -SIZE..=SIZE {
                builder.add(lattice_box(x, y, z), (x, y, x));
            }
        }
    }

    let _: Bvh<(i32, i32, i32), Aabb3> = builder.build();
}

#[test]
fn test_bvh_collide_all() {
    let mut set = HashSet::new();
    for x in -SIZE..=SIZE {
        for y in -SIZE..=SIZE {
            for z in -SIZE..=SIZE {
                set.insert((x, y, z));
            }
        }
    }

    let aabb = Aabb3::new(
        Point3::new(-4 * SIZE, -4 * SIZE, -4 * SIZE),
        Point3::new(4 * SIZE, 4 * SIZE, 4 * SIZE),
    );

    let bvh = lattice().build();
    for (_, dat) in collect(&bvh, &aabb) {
        assert!(set.remove(&dat));
    }

    assert!(set.len() == 0);
}

#[test]
fn test_aabb_bvh_collide_all() {
    let mut set = HashSet::new();
    let mut builder = BvhBuilder::new();
    for x in -SIZE..=SIZE {
        for y in -SIZE..=SIZE {
            for z in -SIZE..=SIZE {
                builder.add(lattice_box(x, y, z), (x, y, z));
                set.insert((x, y, z));
            }
        }
    }

    let aabb = Aabb3::new(
        Point3::new(-4 * SIZE, -4 * SIZE, -4 * SIZE),
        Point3::new(4 * SIZE, 4 * SIZE, 4 * SIZE),
    );

    let bvh = builder.build();
    for (_, dat) in collect(&bvh, &aabb) {
        assert!(set.remove(&dat));
    }

    assert!(set.len() == 0);
}

#[test]
fn test_bvh_collide_half() {
    let mut set = HashSet::new();
    let check = Aabb3::new(Point3::new(0, 0, 0), Point3::new(4 * SIZE, 4 * SIZE, 4 * SIZE));
    for x in -SIZE..=SIZE {
        for y in -SIZE..=SIZE {
            for z in -SIZE..=SIZE {
                if lattice_box(x, y, z).intersect(&check) {
                    set.insert((x, y, z));
                }
            }
        }
    }

    let bvh = lattice().build();
    for (_, dat) in collect(&bvh, &check) {
        assert!(set.remove(&dat));
    }

    assert!(set.len() == 0);
}

#[test]
fn test_aabb_bvh_collide_half() {
    let mut set = HashSet::new();
    let mut builder = BvhBuilder::new();

    let check = Aabb3::new(Point3::new(0, 0, 0), Point3::new(4 * SIZE, 4 * SIZE, 4 * SIZE));

    for x in -SIZE..=SIZE {
        for y in -SIZE..=SIZE {
            for z in -SIZE..=SIZE {
                let aabb = lattice_box(x, y, z);
                builder.add(aabb, (x, y, z));
                if aabb.intersect(&check) {
                    set.insert((x, y, z));
                }
            }
        }
    }

    let bvh = builder.build();
    for (_, dat) in collect(&bvh, &check) {
        assert!(set.remove(&dat));
    }

    assert!(set.len() == 0);
}

#[test]
fn bvh_empty_yields_nothing() {
    let builder: BvhBuilder<u32, Aabb3, Point3> = BvhBuilder::new();
    let bvh = builder.build();
    let query = Aabb3::new(Point3::new(-100, -100, -100), Point3::new(100, 100, 100));
    let mut iter = bvh.collision_iter(&query);
    assert!(iter.next().is_none());
    assert!(iter.next().is_none());
}

#[test]
fn bvh_single_leaf_is_given_out_once() {
    let a = Aabb3::new(Point3::new(0, 0, 0), Point3::new(1, 1, 1));
    let mut builder: BvhBuilder<u32, Aabb3, Point3> = BvhBuilder::new();
    builder.add(a, 7);
    let bvh = builder.build();
    let mut iter = bvh.collision_iter(&a);
    assert_eq!(iter.next(), Some((&a, &7)));
    assert!(iter.next().is_none());
    assert!(iter.next().is_none());
    let query = Aabb3::new(Point3::new(-100, -100, -100), Point3::new(100, 100, 100));
    let mut iter = bvh.collision_iter(&query);
    assert_eq!(iter.next(), Some((&a, &7)));
    assert!(iter.next().is_none());
    let apart = Aabb3::new(Point3::new(5, 5, 5), Point3::new(6, 6, 6));
    let mut iter = bvh.collision_iter(&apart);
    assert!(iter.next().is_none());
    assert!(iter.next().is_none());
}

#[test]
fn bvh_every_small_count_is_complete() {
    for n in 1..40u32 {
        let mut builder: BvhBuilder<u32, Aabb3, Point3> = BvhBuilder::new();
        for i in 0..n {
            let at = (i as i32) * 3;
            builder.add(Aabb3::new(Point3::new(at, 0, 0), Point3::new(at + 1, 1, 1)), i);
        }
        let bvh = builder.build();
        let all = Aabb3::new(Point3::new(-1, -1, -1), Point3::new(1000, 2, 2));
        let mut seen = Vec::new();
        let mut iter = bvh.collision_iter(&all);
        while let Some((_, dat)) = iter.next() {
            seen.push(*dat);
        }
        let mut sorted = seen.clone();
        sorted.sort();
        let expect: Vec<u32> = (0..n).collect();
        assert_eq!(sorted, expect);
        for probe in 0..n {
            let at = (probe as i32) * 3;
            let one = Aabb3::new(Point3::new(at, 0, 0), Point3::new(at, 0, 0));
            let mut iter = bvh.collision_iter(&one);
            let mut found = Vec::new();
            while let Some((_, dat)) = iter.next() {
                found.push(*dat);
            }
            assert_eq!(found, vec![probe]);
        }
    }
}

#[test]
fn bvh_leaves_come_out_in_falling_morton_order() {
    let mut builder: BvhBuilder<u32, Aabb3, Point3> = BvhBuilder::new();
    let spots = [(90, 5, 5), (5, 5, 5), (50, 50, 50), (5, 90, 5), (5, 5, 90), (90, 90, 90)];
    for (i, &(x, y, z)) in spots.iter().enumerate() {
        builder.add(Aabb3::new(Point3::new(x, y, z), Point3::new(x + 2, y + 2, z + 2)), i as u32);
    }
    let bvh = builder.build();
    let all = Aabb3::new(Point3::new(0, 0, 0), Point3::new(100, 100, 100));
    let mut order = Vec::new();
    let mut iter = bvh.collision_iter(&all);
    while let Some((shape, dat)) = iter.next() {
        order.push((shape.center(), *dat));
    }
    // In the box from the origin to (92, 92, 92) the centers at 91 and at 51
    // are in the upper half of an axis, that at 6 in the lower half; the
    // highest bits of a code are the upper halves in x, y and z.
    let tags: Vec<u32> = order.iter().map(|e| e.1).collect();
    assert_eq!(tags, vec![5, 2, 0, 3, 4, 1]);
}

#[test]
fn bvh_equal_codes_keep_the_order_of_adding() {
    let mut builder: BvhBuilder<u32, Aabb3, Point3> = BvhBuilder::new();
    for i in 0..5 {
        builder.add(Aabb3::new(Point3::new(0, 0, 0), Point3::new(2, 2, 2)), i);
    }
    let bvh = builder.build();
    let all = Aabb3::new(Point3::new(0, 0, 0), Point3::new(1, 1, 1));
    let mut tags = Vec::new();
    let mut iter = bvh.collision_iter(&all);
    while let Some((_, dat)) = iter.next() {
        tags.push(*dat);
    }
    assert_eq!(tags, vec![4, 3, 2, 1, 0]);
}

#[test]
fn bvh_rebuild_gives_the_same_answers() {
    let bvh = lattice().build();
    let check = Aabb3::new(Point3::new(-7, 3, 0), Point3::new(9, 21, 13));
    let mut first: Vec<(i32, i32, i32)> = collect(&bvh, &check).iter().map(|e| e.1).collect();
    first.sort();
    assert!(first.len() > 0);

    let mut builder: BvhBuilder<(i32, i32, i32), Aabb3, Point3> = bvh.to_builder();
    for z in -SIZE..=SIZE {
        for y in -SIZE..=SIZE {
            for x in -SIZE..=SIZE {
                builder.add(lattice_box(x, y, z), (x, y, z));
            }
        }
    }
    let again = builder.build();
    let mut second: Vec<(i32, i32, i32)> = collect(&again, &check).iter().map(|e| e.1).collect();
    second.sort();
    assert_eq!(first, second);
}

#[test]
fn bvh_to_builder_is_empty() {
    let bvh = lattice().build();
    let builder: BvhBuilder<(i32, i32, i32), Aabb3, Point3> = bvh.to_builder();
    let empty = builder.build();
    let all = Aabb3::new(Point3::new(-100, -100, -100), Point3::new(100, 100, 100));
    assert!(empty.collision_iter(&all).next().is_none());
}

#[test]
fn bvh_in_the_plane() {
    let mut builder: BvhBuilder<usize, Aabb2, Point2> = BvhBuilder::new();
    let mut boxes = Vec::new();
    for x in 0..7 {
        for y in 0..5 {
            let b = Aabb2::new(Point2::new(10 * x, 10 * y), Point2::new(10 * x + 4, 10 * y + 4));
            builder.add(b, boxes.len());
            boxes.push(b);
        }
    }
    let bvh = builder.build();
    let query = Aabb2::new(Point2::new(12, 3), Point2::new(31, 22));
    let mut found = Vec::new();
    let mut iter = bvh.collision_iter(&query);
    while let Some((shape, at)) = iter.next() {
        assert_eq!(*shape, boxes[*at]);
        found.push(*at);
    }
    found.sort();
    let expect: Vec<usize> = (0..boxes.len()).filter(|&i| boxes[i].intersect(&query)).collect();
    assert_eq!(found, expect);
    assert!(expect.len() > 0);
}

#[test]
fn bvh_box_without_extent() {
    let mut builder: BvhBuilder<u32, Aabb3, Point3> = BvhBuilder::new();
    for i in 0..4 {
        builder.add(Aabb3::new(Point3::new(0, 0, 0), Point3::new(0, 0, 0)), i);
    }
    let bvh = builder.build();
    let at = Aabb3::new(Point3::new(0, 0, 0), Point3::new(0, 0, 0));
    let mut count = 0;
    let mut iter = bvh.collision_iter(&at);
    while let Some(_) = iter.next() {
        count += 1;
    }
    assert_eq!(count, 4);
}
