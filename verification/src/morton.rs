//! Morton (Z-order) codes: a point of a bounded box is mapped to a cell of a
//! 1024-cell grid on each axis, and the cell numbers are interleaved bit by
//! bit into one integer.

use vstd::prelude::*;
use crate::point::{Point2, Point3};

verus! {

/// A scale factor that is not negative: the quotient `num / den`. A zero
/// denominator marks an axis without extent, on which every coordinate is
/// mapped to cell 0.
#[derive(Clone, Copy, Debug, PartialEq, Eq, Structural)]
pub struct Ratio {
    pub num: u32,
    pub den: u32,
}

/// One scale factor for each axis of the plane.
#[derive(Clone, Copy, Debug, PartialEq, Eq, Structural)]
pub struct Scale2 {
    pub x: Ratio,
    pub y: Ratio,
}

/// One scale factor for each axis of space.
#[derive(Clone, Copy, Debug, PartialEq, Eq, Structural)]
pub struct Scale3 {
    pub x: Ratio,
    pub y: Ratio,
    pub z: Ratio,
}

/// The number of grid cells on an axis, less one.
pub const GRID_MAX: u32 = 1023;

/// The grid cell of a coordinate: the distance from `base`, times the scale,
/// rounded down. A coordinate below the base is in cell 0, and a product
/// beyond 32 bits counts as the largest 32-bit number.
pub open spec fn cell_of(p: i32, base: i32, scale: Ratio) -> u32 {
    let d = p - base;
    if d <= 0 || scale.den == 0 {
        0
    } else if d * scale.num / (scale.den as int) > u32::MAX {
        u32::MAX
    } else {
        (d * scale.num / (scale.den as int)) as u32
    }
}

/// The scale that maps the distance from `lo` to `hi` onto the grid:
/// `1023 / (hi - lo)`, or the marker for no extent where `hi <= lo`.
pub open spec fn grid_ratio(lo: i32, hi: i32) -> Ratio {
    if hi > lo {
        Ratio { num: GRID_MAX, den: (hi - lo) as u32 }
    } else {
        Ratio { num: GRID_MAX, den: 0 }
    }
}

/// The low `n` bits of `v`, bit `i` moved to position `i * (gap + 1)`.
pub open spec fn spread_upto(v: u32, gap: u32, n: u32) -> u32
    decreases n,
{
    if n == 0 {
        0
    } else {
        let k = (n - 1) as u32;
        spread_upto(v, gap, k) | ((v & (1u32 << k)) << ((k * gap) as u32))
    }
}

/// The 20-bit code of a cell of the plane: bit `i` of `x` at position
/// `2 i + 1`, bit `i` of `y` at position `2 i`.
pub open spec fn morton2(x: u32, y: u32) -> u32 {
    (spread_upto(x, 1, 10) << 1) | spread_upto(y, 1, 10)
}

/// The 30-bit code of a cell of space: bit `i` of `x` at position
/// `3 i + 2`, bit `i` of `y` at `3 i + 1`, bit `i` of `z` at `3 i`.
pub open spec fn morton3(x: u32, y: u32, z: u32) -> u32 {
    (spread_upto(x, 2, 10) << 2) | (spread_upto(y, 2, 10) << 1) | spread_upto(z, 2, 10)
}

/// A type with a Morton code relative to a base point and a scale.
pub trait ToMorton<P, V> {
    spec fn morton(&self, base: &P, scale: &V) -> u32;

    fn to_morton(&self, base: &P, scale: &V) -> (code: u32)
        ensures
            code == self.morton(base, scale),
    ;
}

/// The grid cell of a coordinate.
pub fn quantize(p: i32, base: i32, scale: Ratio) -> (q: u32)
    ensures
        q == cell_of(p, base, scale),
{
    let d: i64 = p as i64 - base as i64;
    if d <= 0 || scale.den == 0 {
        return 0;
    }
    assert(d * scale.num <= 0xffff_ffff * 0xffff_ffff) by (nonlinear_arith)
        requires
            0 < d <= 0xffff_ffff,
            0 <= scale.num <= 0xffff_ffff,
    ;
    let scaled: u64 = (d as u64) * (scale.num as u64) / (scale.den as u64);
    if scaled > u32::MAX as u64 {
        u32::MAX
    } else {
        scaled as u32
    }
}

/// The scale that maps the distance from `lo` to `hi` onto the grid.
pub fn ratio_for(lo: i32, hi: i32) -> (r: Ratio)
    ensures
        r == grid_ratio(lo, hi),
{
    if hi > lo {
        Ratio { num: GRID_MAX, den: (hi as i64 - lo as i64) as u32 }
    } else {
        Ratio { num: GRID_MAX, den: 0 }
    }
}

/// Spreads the low ten bits of `val`, leaving `gap` free positions after
/// each.
fn to_morton_code(val: u32, gap: u32) -> (out: u32)
    requires
        gap == 1 || gap == 2,
    ensures
        out == spread_upto(val, gap, 10),
{
    let mut out: u32 = 0;
    let mut mask: u32 = 1;
    let mut rotate: u32 = 0;
    let mut i: u32 = 0;
    assert(1u32 << 0u32 == 1u32) by (bit_vector);
    while i < 10
        invariant
            i <= 10,
            gap == 1 || gap == 2,
            mask == 1u32 << i,
            rotate == i * gap,
            out == spread_upto(val, gap, i),
        decreases 10 - i,
    {
        out |= (val & mask) << rotate;
        assert((1u32 << i) << 1 == 1u32 << ((i + 1) as u32)) by (bit_vector)
            requires
                i < 10,
        ;
        mask <<= 1;
        rotate += gap;
        i += 1;
    }
    out
}

/// The code of a cell of space from its three cell numbers.
pub fn interleave3(x: u32, y: u32, z: u32) -> (code: u32)
    ensures
        code == morton3(x, y, z),
{
    (to_morton_code(x, 2) << 2) | (to_morton_code(y, 2) << 1) | to_morton_code(z, 2)
}

/// The code of a cell of the plane from its two cell numbers.
pub fn interleave2(x: u32, y: u32) -> (code: u32)
    ensures
        code == morton2(x, y),
{
    (to_morton_code(x, 1) << 1) | to_morton_code(y, 1)
}

impl ToMorton<Point3, Scale3> for Point3 {
    open spec fn morton(&self, base: &Point3, scale: &Scale3) -> u32 {
        morton3(
            cell_of(self.x, base.x, scale.x),
            cell_of(self.y, base.y, scale.y),
            cell_of(self.z, base.z, scale.z),
        )
    }

    fn to_morton(&self, base: &Point3, scale: &Scale3) -> (code: u32) {
        let x = quantize(self.x, base.x, scale.x);
        let y = quantize(self.y, base.y, scale.y);
        let z = quantize(self.z, base.z, scale.z);
        interleave3(x, y, z)
    }
}

impl ToMorton<Point2, Scale2> for Point2 {
    open spec fn morton(&self, base: &Point2, scale: &Scale2) -> u32 {
        morton2(cell_of(self.x, base.x, scale.x), cell_of(self.y, base.y, scale.y))
    }

    fn to_morton(&self, base: &Point2, scale: &Scale2) -> (code: u32) {
        let x = quantize(self.x, base.x, scale.x);
        let y = quantize(self.y, base.y, scale.y);
        interleave2(x, y)
    }
}

/// Ten bits spread with two free positions after each, written out.
spec fn spread3(v: u32) -> u32 {
    0 | ((v & (1u32 << 0)) << 0) | ((v & (1u32 << 1)) << 2) | ((v & (1u32 << 2)) << 4) | ((v & (1u32 << 3)) << 6) | ((v & (1u32 << 4)) << 8) | ((v & (1u32 << 5)) << 10) | ((v & (1u32 << 6)) << 12) | ((v & (1u32 << 7)) << 14) | ((v & (1u32 << 8)) << 16) | ((v & (1u32 << 9)) << 18)
}

/// Ten bits spread with one free position after each, written out.
spec fn spread2(v: u32) -> u32 {
    0 | ((v & (1u32 << 0)) << 0) | ((v & (1u32 << 1)) << 1) | ((v & (1u32 << 2)) << 2) | ((v & (1u32 << 3)) << 3) | ((v & (1u32 << 4)) << 4) | ((v & (1u32 << 5)) << 5) | ((v & (1u32 << 6)) << 6) | ((v & (1u32 << 7)) << 7) | ((v & (1u32 << 8)) << 8) | ((v & (1u32 << 9)) << 9)
}

proof fn lemma_spread_written_out(v: u32)
    ensures
        spread_upto(v, 2, 10) == spread3(v),
        spread_upto(v, 1, 10) == spread2(v),
{
    reveal_with_fuel(spread_upto, 11);
}

/// Bit `i` of each cell number stands in the code of a cell of space at its
/// own place: that of `x` at `3 i + 2`, of `y` at `3 i + 1`, of `z` at
/// `3 i`. The code has no other bits.
pub proof fn lemma_morton3_bits(x: u32, y: u32, z: u32, i: u32)
    requires
        i < 10,
    ensures
        (morton3(x, y, z) >> ((3 * i + 2) as u32)) & 1 == (x >> i) & 1,
        (morton3(x, y, z) >> ((3 * i + 1) as u32)) & 1 == (y >> i) & 1,
        (morton3(x, y, z) >> ((3 * i) as u32)) & 1 == (z >> i) & 1,
        morton3(x, y, z) <= 0x3fff_ffff,
{
    lemma_spread_written_out(x);
    lemma_spread_written_out(y);
    lemma_spread_written_out(z);
    let code = (spread3(x) << 2) | (spread3(y) << 1) | spread3(z);
    assert(morton3(x, y, z) == code);
    assert((code >> ((3 * i + 2) as u32)) & 1 == (x >> i) & 1) by (bit_vector)
        requires
            code == (spread3(x) << 2) | (spread3(y) << 1) | spread3(z),
            i < 10,
    ;
    assert((code >> ((3 * i + 1) as u32)) & 1 == (y >> i) & 1) by (bit_vector)
        requires
            code == (spread3(x) << 2) | (spread3(y) << 1) | spread3(z),
            i < 10,
    ;
    assert((code >> ((3 * i) as u32)) & 1 == (z >> i) & 1) by (bit_vector)
        requires
            code == (spread3(x) << 2) | (spread3(y) << 1) | spread3(z),
            i < 10,
    ;
    assert(code <= 0x3fff_ffff) by (bit_vector)
        requires
            code == (spread3(x) << 2) | (spread3(y) << 1) | spread3(z),
    ;
}

/// As `lemma_morton3_bits`, for a cell of the plane: bit `i` of `x` stands
/// at `2 i + 1`, that of `y` at `2 i`.
pub proof fn lemma_morton2_bits(x: u32, y: u32, i: u32)
    requires
        i < 10,
    ensures
        (morton2(x, y) >> ((2 * i + 1) as u32)) & 1 == (x >> i) & 1,
        (morton2(x, y) >> ((2 * i) as u32)) & 1 == (y >> i) & 1,
        morton2(x, y) <= 0xf_ffff,
{
    lemma_spread_written_out(x);
    lemma_spread_written_out(y);
    let code = (spread2(x) << 1) | spread2(y);
    assert(morton2(x, y) == code);
    assert((code >> ((2 * i + 1) as u32)) & 1 == (x >> i) & 1) by (bit_vector)
        requires
            code == (spread2(x) << 1) | spread2(y),
            i < 10,
    ;
    assert((code >> ((2 * i) as u32)) & 1 == (y >> i) & 1) by (bit_vector)
        requires
            code == (spread2(x) << 1) | spread2(y),
            i < 10,
    ;
    assert(code <= 0xf_ffff) by (bit_vector)
        requires
            code == (spread2(x) << 1) | spread2(y),
    ;
}

/// Along the x axis, with `y` and `z` in cell 0, the code holds the bits of
/// `x` at the places of x and nothing at the places of y and z: as `x` runs
/// through the cells, so does what the places of x hold.
pub proof fn lemma_morton3_x_axis(x: u32)
    ensures
        morton3(x, 0, 0) & 0x1b6d_b6db == 0,
        forall|i: u32| i < 10 ==> #[trigger] (morton3(x, 0, 0) >> ((3 * i + 2) as u32)) & 1 == (x >> i) & 1,
{
    lemma_spread_written_out(x);
    lemma_spread_written_out(0);
    let code = (spread3(x) << 2) | (spread3(0) << 1) | spread3(0);
    assert(morton3(x, 0, 0) == code);
    assert(code & 0x1b6d_b6db == 0) by (bit_vector)
        requires
            code == (spread3(x) << 2) | (spread3(0) << 1) | spread3(0),
    ;
    assert forall|i: u32| i < 10 implies #[trigger] (morton3(x, 0, 0) >> ((3 * i + 2) as u32)) & 1
        == (x >> i) & 1 by {
        lemma_morton3_bits(x, 0, 0, i);
    }
}

/// Points in the same cell on every axis have the same code.
pub proof fn lemma_morton3_same_cell(p: Point3, q: Point3, base: Point3, scale: Scale3)
    requires
        cell_of(p.x, base.x, scale.x) == cell_of(q.x, base.x, scale.x),
        cell_of(p.y, base.y, scale.y) == cell_of(q.y, base.y, scale.y),
        cell_of(p.z, base.z, scale.z) == cell_of(q.z, base.z, scale.z),
    ensures
        p.morton(&base, &scale) == q.morton(&base, &scale),
{
}

/// Points of the plane in the same cell on both axes have the same code.
pub proof fn lemma_morton2_same_cell(p: Point2, q: Point2, base: Point2, scale: Scale2)
    requires
        cell_of(p.x, base.x, scale.x) == cell_of(q.x, base.x, scale.x),
        cell_of(p.y, base.y, scale.y) == cell_of(q.y, base.y, scale.y),
    ensures
        p.morton(&base, &scale) == q.morton(&base, &scale),
{
}

} // verus!
