use collision::aabb::{Aabb2, Aabb3};
use collision::bvh::BvhBuilder;
use collision::linear::Linear;
use collision::point::{Point2, Point3};
use collision::sparse::Sparse;
use collision::sphere::Circle;
use collision::uniform::Uniform2D;
use collision::{Center, Intersects};

// A small generator of numbers, the same on every run.
struct Numbers(u64);

impl Numbers {
    fn next(&mut self) -> u64 {
        self.0 = self.0.wrapping_mul(6364136223846793005).wrapping_add(1442695040888963407);
        self.0 >> 33
    }

    fn between(&mut self, lo: i32, hi: i32) -> i32 {
        lo + (self.next() % ((hi - lo + 1) as u64)) as i32
    }

    fn box3(&mut self, span: i32, side: i32) -> Aabb3 {
        let p = Point3::new(
            self.between(-span, span),
            self.between(-span, span),
            self.between(-span, span),
        );
        let q = Point3::new(
            p.x + self.between(0, side),
            p.y + self.between(0, side),
            p.z + self.between(0, side),
        );
        Aabb3::new(p, q)
    }
}

#[test]
fn bvh_agrees_with_a_plain_search() {
    let mut numbers = Numbers(7);
    for round in 0..30 {
        let count = 1 + (round * 13) % 200;
        let mut boxes = Vec::new();
        let mut builder: BvhBuilder<usize, Aabb3, Point3> = BvhBuilder::new();
        for i in 0..count {
            let b = numbers.box3(1000, 120);
            boxes.push(b);
            builder.add(b, i);
        }
        let bvh = builder.build();
        for _ in 0..20 {
            let query = numbers.box3(1000, 600);
            let mut found = Vec::new();
            let mut iter = bvh.collision_iter(&query);
            while let Some((shape, at)) = iter.next() {
                assert_eq!(*shape, boxes[*at]);
                found.push(*at);
            }
            found.sort();
            let expect: Vec<usize> = (0..count).filter(|&i| boxes[i].intersect(&query)).collect();
            assert_eq!(found, expect);
        }
    }
}

#[test]
fn bvh_in_the_plane_agrees_with_a_plain_search() {
    let mut numbers = Numbers(11);
    let mut boxes = Vec::new();
    let mut builder: BvhBuilder<usize, Aabb2, Point2> = BvhBuilder::new();
    for i in 0..333 {
        let p = Point2::new(numbers.between(-500, 500), numbers.between(-500, 500));
        let b = Aabb2::new(p, Point2::new(p.x + numbers.between(0, 40), p.y + numbers.between(0, 40)));
        boxes.push(b);
        builder.add(b, i);
    }
    let bvh = builder.build();
    for _ in 0..50 {
        let p = Point2::new(numbers.between(-500, 500), numbers.between(-500, 500));
        let query = Aabb2::new(p, Point2::new(p.x + numbers.between(0, 300), p.y + numbers.between(0, 300)));
        let mut found = Vec::new();
        let mut iter = bvh.collision_iter(&query);
        while let Some((_, at)) = iter.next() {
            found.push(*at);
        }
        found.sort();
        let expect: Vec<usize> = (0..boxes.len()).filter(|&i| boxes[i].intersect(&query)).collect();
        assert_eq!(found, expect);
    }
}

#[test]
fn grid_agrees_with_plain_lists() {
    let mut numbers = Numbers(3);
    let size = 8;
    let scale = 400;
    let mut grid: Uniform2D<Circle, u32> = Uniform2D::new(size, scale);
    let mut cells: Vec<Vec<(Circle, u32)>> = vec![Vec::new(); (size * size) as usize];
    let cell = |grid: &Uniform2D<Circle, u32>, c: &Circle| -> Option<usize> {
        match (grid.get_offset(c.center().x), grid.get_offset(c.center().y)) {
            (Some(x), Some(y)) => Some((x * size + y) as usize),
            _ => None,
        }
    };
    for step in 0..3000 {
        let shape = Circle::new(
            Point2::new(numbers.between(-450, 450), numbers.between(-450, 450)),
            numbers.between(1, 60),
        );
        let value = numbers.between(0, 40) as u32;
        match numbers.between(0, 3) {
            0 | 1 => {
                grid.insert(shape, value);
                if let Some(c) = cell(&grid, &shape) {
                    cells[c].insert(0, (shape, value));
                }
            }
            2 => {
                let removed = grid.remove(&shape, &value);
                let mut expect = false;
                if let Some(c) = cell(&grid, &shape) {
                    if let Some(at) = cells[c].iter().position(|e| e.1 == value) {
                        cells[c].remove(at);
                        expect = true;
                    }
                }
                assert_eq!(removed, expect);
            }
            _ => {
                let to = Circle::new(
                    Point2::new(numbers.between(-450, 450), numbers.between(-450, 450)),
                    numbers.between(1, 60),
                );
                grid.update(&shape, to, &value);
                match (cell(&grid, &to), cell(&grid, &shape)) {
                    (None, None) => {}
                    (None, Some(f)) => {
                        if let Some(at) = cells[f].iter().position(|e| e.1 == value) {
                            cells[f].remove(at);
                        }
                    }
                    (Some(t), None) => cells[t].insert(0, (to, value)),
                    (Some(t), Some(f)) => {
                        if t != f {
                            if let Some(at) = cells[f].iter().position(|e| e.1 == value) {
                                cells[f].remove(at);
                            }
                            cells[t].insert(0, (to, value));
                        } else if let Some(at) = cells[t].iter().position(|e| e.1 == value) {
                            cells[t][at].0 = to;
                        }
                    }
                }
            }
        }
        if step % 100 == 0 {
            let mut all = Vec::new();
            let mut iter = grid.iter();
            while let Some((c, v)) = iter.next() {
                all.push((*c, *v));
            }
            let expect: Vec<(Circle, u32)> = cells.iter().flatten().cloned().collect();
            assert_eq!(all, expect);

            let query = Circle::new(
                Point2::new(numbers.between(-450, 450), numbers.between(-450, 450)),
                numbers.between(1, 200),
            );
            let mut found = Vec::new();
            let mut iter = grid.collision_iter(&query);
            while let Some((c, v)) = iter.next() {
                found.push((*c, *v));
            }
            let mut expect = Vec::new();
            if let (Some(cx), Some(cy)) =
                (grid.get_offset(query.center().x), grid.get_offset(query.center().y))
            {
                for dy in -1..=1 {
                    for dx in -1..=1 {
                        let (x, y) = (cx + dx, cy + dy);
                        if 0 <= x && x < size && 0 <= y && y < size {
                            for e in cells[(x * size + y) as usize].iter() {
                                if query.intersect(&e.0) {
                                    expect.push(*e);
                                }
                            }
                        }
                    }
                }
            }
            assert_eq!(found, expect);
        }
        if step == 1500 {
            grid = grid.defrag();
            for c in cells.iter_mut() {
                c.reverse();
            }
        }
    }
}

#[test]
fn octrees_find_what_was_put_in() {
    let mut numbers = Numbers(5);
    let mut sparse: Sparse<Aabb3, usize> = Sparse::new(1024, 6);
    let mut linear: Linear<Aabb3, usize> = Linear::new(1024, 4);
    let mut keys = Vec::new();
    for i in 0..400 {
        let key = numbers.box3(1100, 90);
        keys.push(key);
        sparse.insert(key, i);
        linear.insert(key, i);
        assert!(sparse.quary(&key).contains(&(key, i)));
        assert!(linear.quary(&key).contains(&(key, i)));
    }
    for (i, key) in keys.iter().enumerate() {
        assert!(sparse.quary(key).contains(&(*key, i)));
        assert!(linear.quary(key).contains(&(*key, i)));
    }
    let copy = sparse.clone();
    for (i, key) in keys.iter().enumerate() {
        if i % 2 == 0 {
            linear.remove(*key);
            assert!(!linear.quary(key).contains(&(*key, i)));
        }
    }
    for (i, key) in keys.iter().enumerate() {
        if i % 2 == 1 {
            assert!(linear.quary(key).contains(&(*key, i)));
        }
        assert!(copy.quary(key).contains(&(*key, i)));
    }
}
