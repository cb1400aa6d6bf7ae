//! What the two octrees share: the octants of a cube, and the lists of
//! keys that a node holds.

use vstd::prelude::*;
use vstd::std_specs::cmp::PartialEqSpec;
use crate::point::{half, half_i32, Point3};
use crate::{octants, CheckRange2, CheckRange3, Intersects};

verus! {

/// The cube of half side `scale` around `centre` reaches no further than
/// the coordinates do.
pub open spec fn cube_bounded(centre: Point3, scale: i32) -> bool {
    &&& -0x8000_0000 <= centre.x - scale <= 0x8000_0000
    &&& -0x8000_0000 <= centre.x + scale <= 0x8000_0000
    &&& -0x8000_0000 <= centre.y - scale <= 0x8000_0000
    &&& -0x8000_0000 <= centre.y + scale <= 0x8000_0000
    &&& -0x8000_0000 <= centre.z - scale <= 0x8000_0000
    &&& -0x8000_0000 <= centre.z + scale <= 0x8000_0000
}

/// A coordinate of the center of a child: half a side up or down.
pub open spec fn shifted(c: i32, hscale: int, up: bool) -> i32 {
    if up {
        (c + hscale) as i32
    } else {
        (c - hscale) as i32
    }
}

/// The center of the octant `idx` of the cube of half side `scale` around
/// `centre`.
pub open spec fn octant_centre(centre: Point3, scale: i32, idx: nat) -> Point3 {
    let hscale = half(scale as int);
    Point3 {
        x: shifted(centre.x, hscale, idx / 4 % 2 == 1),
        y: shifted(centre.y, hscale, idx / 2 % 2 == 1),
        z: shifted(centre.z, hscale, idx % 2 == 1),
    }
}

/// The octants around a point that a shape reaches.
pub open spec fn reached<Q: CheckRange3>(shape: Q, centre: Point3) -> Seq<bool> {
    octants(shape.side_x(centre.x), shape.side_y(centre.y), shape.side_z(centre.z))
}

/// The center of an octant.
pub fn centre_of(centre: Point3, scale: i32, idx: usize) -> (c: Point3)
    requires
        idx < 8,
        cube_bounded(centre, scale),
    ensures
        c == octant_centre(centre, scale, idx as nat),
        cube_bounded(c, half(scale as int) as i32),
{
    let hscale = half_i32(scale);
    Point3 {
        x: if (idx / 4) % 2 == 0 {
            (centre.x as i64 - hscale as i64) as i32
        } else {
            (centre.x as i64 + hscale as i64) as i32
        },
        y: if (idx / 2) % 2 == 0 {
            (centre.y as i64 - hscale as i64) as i32
        } else {
            (centre.y as i64 + hscale as i64) as i32
        },
        z: if idx % 2 == 0 {
            (centre.z as i64 - hscale as i64) as i32
        } else {
            (centre.z as i64 + hscale as i64) as i32
        },
    }
}

/// Whether a key overlaps every key of a list.
pub open spec fn overlaps_all<K: Intersects<K>, V>(key: K, list: Seq<(K, V)>) -> bool {
    forall|i: int| 0 <= i < list.len() ==> key.overlaps(&(#[trigger] list[i]).0)
}

/// The place of the first entry at or after `from` whose key equals `key`,
/// or the length of the list where there is none.
pub open spec fn first_equal<K: PartialEq, V>(list: Seq<(K, V)>, key: K, from: nat) -> nat
    decreases list.len() - from,
{
    if from >= list.len() {
        list.len()
    } else if list[from as int].0.eq_spec(&key) {
        from
    } else {
        first_equal(list, key, from + 1)
    }
}

/// The list without its first entry whose key equals `key`.
pub open spec fn without_first<K: PartialEq, V>(list: Seq<(K, V)>, key: K) -> Seq<(K, V)> {
    let at = first_equal(list, key, 0);
    if at < list.len() {
        list.remove(at as int)
    } else {
        list
    }
}

} // verus!
