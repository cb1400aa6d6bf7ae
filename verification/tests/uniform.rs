use std::collections::HashSet;

use collision::point::Point2;
use collision::sphere::Circle;
use collision::uniform::Uniform2D;

fn tags(grid: &Uniform2D<Circle, i32>, query: &Circle) -> Vec<i32> {
    let mut out = Vec::new();
    let mut iter = grid.collision_iter(query);
    while let Some((_, v)) = iter.next() {
        out.push(*v);
    }
    assert!(iter.next().is_none());
    out
}

fn everything(grid: &Uniform2D<Circle, i32>) -> Vec<(Circle, i32)> {
    let mut out = Vec::new();
    let mut iter = grid.iter();
    while let Some((c, v)) = iter.next() {
        out.push((*c, *v));
    }
    assert!(iter.next().is_none());
    out
}

#[test]
fn get_offset() {
    let grid: Uniform2D<Circle, i32> = Uniform2D::new(2, 1);
    assert_eq!(grid.get_offset(0), Some(1));
    assert_eq!(grid.get_offset(-1), Some(0));
    assert_eq!(grid.get_offset(1), None);

    let grid: Uniform2D<Circle, i32> = Uniform2D::new(2, 2);
    assert_eq!(grid.get_offset(0), Some(1));
    assert_eq!(grid.get_offset(-1), Some(0));
    assert_eq!(grid.get_offset(-2), Some(0));
    assert_eq!(grid.get_offset(1), Some(1));
    assert_eq!(grid.get_offset(2), None);

    let grid: Uniform2D<Circle, i32> = Uniform2D::new(4, 2);
    assert_eq!(grid.get_offset(0), Some(2));
    assert_eq!(grid.get_offset(-1), Some(1));
    assert_eq!(grid.get_offset(-2), Some(0));
    assert_eq!(grid.get_offset(1), Some(3));
    assert_eq!(grid.get_offset(2), None);
}

#[test]
fn insert() {
    let to_find = vec![
        (Circle::new(Point2::new(0, 0), 1), 0),
        (Circle::new(Point2::new(0, 0), 1), 1),
        (Circle::new(Point2::new(0, 0), 1), 2),
    ];

    let mut grid: Uniform2D<Circle, i32> = Uniform2D::new(2, 1);
    for &(k, v) in to_find.iter() {
        grid.insert(k, v);
    }

    let mut set: HashSet<i32> = [0, 1, 2].iter().map(|&x| x).collect();
    for v in tags(&grid, &Circle::new(Point2::new(0, 0), 1)) {
        set.remove(&v);
    }
    assert_eq!(set.len(), 0);
}

#[test]
fn remove() {
    let to_find = vec![
        (Circle::new(Point2::new(0, 0), 1), 0),
        (Circle::new(Point2::new(0, 0), 1), 1),
        (Circle::new(Point2::new(0, 0), 1), 2),
    ];

    let mut grid: Uniform2D<Circle, i32> = Uniform2D::new(2, 1);
    for &(k, v) in to_find.iter() {
        grid.insert(k, v);
    }

    let mut set: HashSet<i32> = [0, 1, 2].iter().map(|&x| x).collect();
    for v in tags(&grid, &Circle::new(Point2::new(0, 0), 1)) {
        set.remove(&v);
    }
    assert_eq!(set.len(), 0);

    grid.remove(&to_find[0].0, &to_find[0].1);
    let mut set: HashSet<i32> = [0, 1, 2].iter().map(|&x| x).collect();
    for v in tags(&grid, &Circle::new(Point2::new(0, 0), 1)) {
        set.remove(&v);
    }
    assert_eq!(set.len(), 1);

    grid.remove(&to_find[2].0, &to_find[2].1);
    let mut set: HashSet<i32> = [0, 1, 2].iter().map(|&x| x).collect();
    for v in tags(&grid, &Circle::new(Point2::new(0, 0), 1)) {
        set.remove(&v);
    }
    assert_eq!(set.len(), 2);

    grid.remove(&to_find[1].0, &to_find[1].1);
    let mut set: HashSet<i32> = [0, 1, 2].iter().map(|&x| x).collect();
    for v in tags(&grid, &Circle::new(Point2::new(0, 0), 1)) {
        set.remove(&v);
    }
    assert_eq!(set.len(), 3);
}

// Coordinates are in tenths of a unit: the circles have the radius 0.1.
#[test]
fn update() {
    let old = vec![
        (Circle::new(Point2::new(0, 0), 1), 0),
        (Circle::new(Point2::new(0, 0), 1), 1),
        (Circle::new(Point2::new(0, 0), 1), 2),
        (Circle::new(Point2::new(0, 0), 1), 3),
    ];

    let new = vec![
        (Circle::new(Point2::new(10, 10), 1), 0),
        (Circle::new(Point2::new(-10, 10), 1), 1),
        (Circle::new(Point2::new(10, -10), 1), 2),
        (Circle::new(Point2::new(-10, -10), 1), 3),
    ];

    let mut grid: Uniform2D<Circle, i32> = Uniform2D::new(4, 20);
    for &(k, v) in old.iter() {
        grid.insert(k, v);
    }

    let mut set: HashSet<i32> = [0, 1, 2, 3].iter().map(|&x| x).collect();
    for &(ref k, _) in old.iter() {
        for v in tags(&grid, k) {
            set.remove(&v);
        }
    }
    assert_eq!(set.len(), 0);

    for (&(ko, vo), &(kn, vn)) in old.iter().zip(old.iter()) {
        assert_eq!(vo, vn);
        grid.update(&ko, kn, &vn);
    }

    let mut set: HashSet<i32> = [0, 1, 2, 3].iter().map(|&x| x).collect();
    for &(ref k, _) in old.iter() {
        for v in tags(&grid, k) {
            set.remove(&v);
        }
    }
    assert_eq!(set.len(), 0);

    for (&(ko, vo), &(kn, vn)) in old.iter().zip(new.iter()) {
        assert_eq!(vo, vn);
        grid.update(&ko, kn, &vn);
    }

    let mut set: HashSet<i32> = [0, 1, 2, 3].iter().map(|&x| x).collect();
    for &(ref pk, _) in old.iter() {
        for v in tags(&grid, pk) {
            set.remove(&v);
        }
    }
    assert_eq!(set.len(), 4);

    let mut set: HashSet<i32> = [0, 1, 2, 3].iter().map(|&x| x).collect();
    for &(ref pk, _) in new.iter() {
        for v in tags(&grid, pk) {
            set.remove(&v);
        }
    }
    assert_eq!(set.len(), 0);
}

#[test]
fn grid_collide_all_yields_newest_first() {
    let mut grid: Uniform2D<Circle, i32> = Uniform2D::new(2, 1);
    let c = Circle::new(Point2::new(0, 0), 1);
    grid.insert(c, 0);
    grid.insert(c, 1);
    grid.insert(c, 2);
    assert_eq!(tags(&grid, &c), vec![2, 1, 0]);
    assert_eq!(everything(&grid), vec![(c, 2), (c, 1), (c, 0)]);
}

#[test]
fn grid_second_remove_changes_nothing() {
    let mut grid: Uniform2D<Circle, i32> = Uniform2D::new(8, 40);
    let a = Circle::new(Point2::new(3, 3), 2);
    let b = Circle::new(Point2::new(4, 2), 2);
    grid.insert(a, 1);
    grid.insert(b, 2);
    grid.insert(a, 3);
    assert!(grid.remove(&a, &1));
    let after = everything(&grid);
    assert!(!grid.remove(&a, &1));
    assert_eq!(everything(&grid), after);
    assert!(!grid.remove(&Circle::new(Point2::new(-30, -30), 1), &2));
    assert!(!grid.remove(&Circle::new(Point2::new(400, 0), 1), &2));
    assert_eq!(everything(&grid), after);
    assert_eq!(after, vec![(a, 3), (b, 2)]);
}

#[test]
fn grid_remove_from_the_middle_and_the_end() {
    let mut grid: Uniform2D<Circle, i32> = Uniform2D::new(2, 10);
    let c = Circle::new(Point2::new(1, 1), 1);
    for v in 0..5 {
        grid.insert(c, v);
    }
    assert!(grid.remove(&c, &2));
    assert_eq!(tags(&grid, &c), vec![4, 3, 1, 0]);
    assert!(grid.remove(&c, &0));
    assert_eq!(tags(&grid, &c), vec![4, 3, 1]);
    assert!(grid.remove(&c, &4));
    assert_eq!(tags(&grid, &c), vec![3, 1]);
    grid.insert(c, 9);
    grid.insert(c, 8);
    grid.insert(c, 7);
    grid.insert(c, 6);
    assert_eq!(tags(&grid, &c), vec![6, 7, 8, 9, 3, 1]);
}

#[test]
fn grid_update_keeps_the_values() {
    let mut grid: Uniform2D<Circle, i32> = Uniform2D::new(4, 20);
    let spots = [(-15, -15), (-5, 5), (5, -5), (15, 15), (5, 5)];
    for (i, &(x, y)) in spots.iter().enumerate() {
        grid.insert(Circle::new(Point2::new(x, y), 1), i as i32);
    }
    let from = Circle::new(Point2::new(-5, 5), 1);
    let to = Circle::new(Point2::new(16, -16), 3);
    grid.update(&from, to, &1);
    let mut values: Vec<i32> = everything(&grid).iter().map(|e| e.1).collect();
    values.sort();
    assert_eq!(values, vec![0, 1, 2, 3, 4]);
    assert!(everything(&grid).contains(&(to, 1)));
    let near = Circle::new(Point2::new(6, 6), 2);
    grid.update(&Circle::new(Point2::new(5, 5), 1), near, &4);
    let mut values: Vec<i32> = everything(&grid).iter().map(|e| e.1).collect();
    values.sort();
    assert_eq!(values, vec![0, 1, 2, 3, 4]);
    assert!(everything(&grid).contains(&(near, 4)));
}

#[test]
fn grid_update_across_the_edge() {
    let mut grid: Uniform2D<Circle, i32> = Uniform2D::new(4, 20);
    let inside = Circle::new(Point2::new(1, 1), 1);
    let outside = Circle::new(Point2::new(100, 1), 1);
    grid.insert(inside, 5);
    grid.update(&inside, outside, &5);
    assert_eq!(everything(&grid), vec![]);
    grid.update(&outside, inside, &5);
    assert_eq!(everything(&grid), vec![(inside, 5)]);
    grid.update(&outside, outside, &5);
    assert_eq!(everything(&grid), vec![(inside, 5)]);
    grid.update(&inside, Circle::new(Point2::new(2, 2), 1), &6);
    assert_eq!(everything(&grid), vec![(inside, 5)]);
}

#[test]
fn grid_out_of_range_is_left_out() {
    let mut grid: Uniform2D<Circle, i32> = Uniform2D::new(4, 20);
    grid.insert(Circle::new(Point2::new(20, 0), 1), 1);
    grid.insert(Circle::new(Point2::new(0, -21), 1), 2);
    grid.insert(Circle::new(Point2::new(-20, 19), 1), 3);
    assert_eq!(everything(&grid).len(), 1);
    assert_eq!(tags(&grid, &Circle::new(Point2::new(-21, 19), 100)), vec![]);
    assert_eq!(tags(&grid, &Circle::new(Point2::new(-20, 19), 100)), vec![3]);
}

#[test]
fn grid_query_scans_the_block_row_by_row() {
    let mut grid: Uniform2D<Circle, i32> = Uniform2D::new(4, 20);
    let mut tag = 0;
    for x in 0..4 {
        for y in 0..4 {
            grid.insert(Circle::new(Point2::new(-15 + 10 * x, -15 + 10 * y), 100), tag);
            tag += 1;
        }
    }
    // The cell of the query is column 1, row 1. A tag is four times the
    // column plus the row.
    let query = Circle::new(Point2::new(-5, -5), 100);
    assert_eq!(tags(&grid, &query), vec![0, 4, 8, 1, 5, 9, 2, 6, 10]);
    let corner = Circle::new(Point2::new(-15, 15), 100);
    assert_eq!(tags(&grid, &corner), vec![2, 6, 3, 7]);
    let mut fine: Uniform2D<Circle, i32> = Uniform2D::new(4, 20);
    let mut tag = 0;
    for x in 0..4 {
        for y in 0..4 {
            fine.insert(Circle::new(Point2::new(-15 + 10 * x, -15 + 10 * y), 1), tag);
            tag += 1;
        }
    }
    let small = Circle::new(Point2::new(-5, -5), 1);
    assert_eq!(tags(&fine, &small), vec![5]);
    let wide = Circle::new(Point2::new(-5, -5), 10);
    assert_eq!(tags(&fine, &wide), vec![4, 1, 5, 9, 6]);
}

#[test]
fn grid_clear_and_defrag() {
    let mut grid: Uniform2D<Circle, i32> = Uniform2D::new(4, 20);
    let a = Circle::new(Point2::new(1, 1), 1);
    let b = Circle::new(Point2::new(-11, 1), 1);
    grid.insert(a, 1);
    grid.insert(a, 2);
    grid.insert(b, 3);
    grid.insert(a, 4);
    grid.remove(&a, &2);
    let packed = grid.defrag();
    assert_eq!(everything(&grid), vec![(b, 3), (a, 4), (a, 1)]);
    assert_eq!(everything(&packed), vec![(b, 3), (a, 1), (a, 4)]);
    grid.clear();
    assert_eq!(everything(&grid), vec![]);
    assert_eq!(tags(&grid, &a), vec![]);
    grid.insert(a, 7);
    assert_eq!(everything(&grid), vec![(a, 7)]);
    assert_eq!(everything(&packed).len(), 3);
}

#[test]
fn grid_without_cells() {
    let mut grid: Uniform2D<Circle, i32> = Uniform2D::new(0, 5);
    grid.insert(Circle::new(Point2::new(0, 0), 1), 1);
    assert_eq!(everything(&grid), vec![]);
    assert_eq!(grid.get_offset(0), None);
}
