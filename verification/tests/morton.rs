use collision::morton::{quantize, ratio_for, Ratio, Scale2, Scale3, ToMorton};
use collision::point::{Point2, Point3};

// Coordinates are in halves of a unit, so that the point (0.5, 0.5, 0.5) is
// (1, 1, 1); the scale 1023 per unit is 1023 / 2 per half.
#[test]
fn test_to_morton3() {
    let base = Point3::new(0, 0, 0);
    let per_half = Ratio { num: 1023, den: 2 };
    let scale = Scale3 { x: per_half, y: per_half, z: per_half };
    let full = Point3::new(2, 2, 2);
    let zero = Point3::new(0, 0, 0);
    let half = Point3::new(1, 1, 1);
    let x_full = Point3::new(2, 0, 0);
    let y_full = Point3::new(0, 2, 0);
    let z_full = Point3::new(0, 0, 2);

    assert!(0b111_111_111_111_111_111_111_111_111_111 == full.to_morton(&base, &scale));
    assert!(0b000_000_000_000_000_000_000_000_000_000 == zero.to_morton(&base, &scale));
    assert!(0b000_111_111_111_111_111_111_111_111_111 == half.to_morton(&base, &scale));
    assert!(0b001_001_001_001_001_001_001_001_001_001 == z_full.to_morton(&base, &scale));
    assert!(0b010_010_010_010_010_010_010_010_010_010 == y_full.to_morton(&base, &scale));
    assert!(0b100_100_100_100_100_100_100_100_100_100 == x_full.to_morton(&base, &scale));
}

#[test]
fn morton2_interleaves_two_axes() {
    let base = Point2::new(0, 0);
    let unit = Ratio { num: 1, den: 1 };
    let scale = Scale2 { x: unit, y: unit };
    assert_eq!(Point2::new(0, 0).to_morton(&base, &scale), 0);
    assert_eq!(Point2::new(1, 0).to_morton(&base, &scale), 0b10);
    assert_eq!(Point2::new(0, 1).to_morton(&base, &scale), 0b01);
    assert_eq!(Point2::new(3, 5).to_morton(&base, &scale), 0b011011);
    assert_eq!(Point2::new(1023, 1023).to_morton(&base, &scale), 0xf_ffff);
    assert_eq!(Point2::new(1023, 0).to_morton(&base, &scale), 0xa_aaaa);
}

#[test]
fn morton_x_axis_leaves_other_places_empty() {
    let base = Point3::new(0, 0, 0);
    let unit = Ratio { num: 1, den: 1 };
    let scale = Scale3 { x: unit, y: unit, z: unit };
    for x in 0..1024 {
        let code = Point3::new(x, 0, 0).to_morton(&base, &scale);
        assert_eq!(code & 0x1b6d_b6db, 0);
        let mut back = 0;
        for i in 0..10 {
            back |= ((code >> (3 * i + 2)) & 1) << i;
        }
        assert_eq!(back, x as u32);
    }
}

#[test]
fn morton_same_cell_same_code() {
    let base = Point3::new(-10, -10, -10);
    let coarse = Ratio { num: 1, den: 4 };
    let scale = Scale3 { x: coarse, y: coarse, z: coarse };
    let a = Point3::new(0, 1, 1).to_morton(&base, &scale);
    let b = Point3::new(1, 1, 1).to_morton(&base, &scale);
    assert_eq!(a, b);
    let c = Point3::new(2, 1, 1).to_morton(&base, &scale);
    assert!(a != c);
}

#[test]
fn morton_uses_the_low_ten_bits() {
    let base = Point3::new(0, 0, 0);
    let unit = Ratio { num: 1, den: 1 };
    let scale = Scale3 { x: unit, y: unit, z: unit };
    assert_eq!(Point3::new(1024, 0, 0).to_morton(&base, &scale), 0);
    assert_eq!(Point3::new(1025, 0, 0).to_morton(&base, &scale), 0b100);
}

#[test]
fn quantize_rounds_down_and_holds_at_the_ends() {
    let third = Ratio { num: 1, den: 3 };
    assert_eq!(quantize(0, 0, third), 0);
    assert_eq!(quantize(2, 0, third), 0);
    assert_eq!(quantize(3, 0, third), 1);
    assert_eq!(quantize(10, 1, third), 3);
    assert_eq!(quantize(-5, 0, third), 0);
    assert_eq!(quantize(5, 0, Ratio { num: 7, den: 0 }), 0);
    let big = Ratio { num: u32::MAX, den: 1 };
    assert_eq!(quantize(i32::MAX, i32::MIN, big), u32::MAX);
    assert_eq!(quantize(i32::MAX, i32::MIN, Ratio { num: 1, den: 1 }), u32::MAX);
    assert_eq!(quantize(i32::MAX, i32::MIN, Ratio { num: 1, den: 2 }), 0x7fff_ffff);
}

#[test]
fn ratio_for_an_extent() {
    assert_eq!(ratio_for(-3, 7), Ratio { num: 1023, den: 10 });
    assert_eq!(ratio_for(4, 4), Ratio { num: 1023, den: 0 });
    assert_eq!(ratio_for(5, 4), Ratio { num: 1023, den: 0 });
    assert_eq!(ratio_for(i32::MIN, i32::MAX), Ratio { num: 1023, den: u32::MAX });
}
