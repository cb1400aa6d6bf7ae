//! An octree of fixed depth in one array: the cells of each level lie side
//! by side, and the eight children of a cell are found by arithmetic on its
//! place.

use vstd::prelude::*;
use vstd::std_specs::cmp::PartialEqSpec;
use crate::octant::{
    centre_of, cube_bounded, first_equal, octant_centre, overlaps_all, reached, without_first,
};
use crate::point::{half, half_i32, Point3};
use crate::{
    lemma_located_reaches, located, octants, some_octant, CheckRange2, CheckRange3, Intersects,
};

verus! {

/// What a cell of the array holds.
pub enum Node<K, V> {
    /// Nothing.
    Empty,
    /// What the cell held was handed down to its eight children.
    Child,
    /// One key with its value.
    Data(K, V),
    /// Several keys with their values.
    Collide(Vec<(K, V)>),
}

/// A cell as a mathematical value.
pub enum Slot<K, V> {
    Empty,
    Child,
    Data(K, V),
    Collide(Seq<(K, V)>),
}

impl<K, V> Node<K, V> {
    /// The cell as a mathematical value.
    pub open spec fn model(&self) -> Slot<K, V> {
        match self {
            Node::Empty => Slot::Empty,
            Node::Child => Slot::Child,
            Node::Data(k, v) => Slot::Data(*k, *v),
            Node::Collide(list) => Slot::Collide(list@),
        }
    }
}

/// The cells of an array as mathematical values.
pub open spec fn models<K, V>(data: Seq<Node<K, V>>) -> Seq<Slot<K, V>> {
    Seq::new(data.len(), |i: int| data[i].model())
}

/// The number of cells of the first `levels` levels: `8 + 64 + ...`.
pub open spec fn size_upto(levels: nat) -> nat
    decreases levels,
{
    if levels == 0 {
        0
    } else {
        8 * size_upto((levels - 1) as nat) + 8
    }
}

/// Eight cells of one level with a common parent: where they lie in the
/// array and what part of space they divide.
#[derive(Clone, Copy)]
pub struct Frame {
    /// The point at which the eight cells meet.
    pub center: Point3,
    /// Half the side of the cube that the eight cells divide.
    pub scale: i32,
    /// Where the level starts in the array.
    pub base: usize,
    /// Where the eight cells start in the level.
    pub search: usize,
    /// The number of levels below this one.
    pub left: usize,
}

/// The part of a frame that says where its cells are.
pub open spec fn frame_fits(f: Frame, depth: nat) -> bool {
    &&& f.left < depth
    &&& f.base == size_upto((depth - 1 - f.left) as nat)
    &&& f.search % 8 == 0
    &&& f.search + 8 <= 7 * f.base + 8
    &&& size_upto(depth) <= usize::MAX
}

/// The frame lies in the array of an octree of `depth` levels, and its cube
/// within the coordinates.
pub open spec fn frame_ok(f: Frame, depth: nat) -> bool {
    frame_fits(f, depth) && cube_bounded(f.center, f.scale)
}

/// The frame of the first level: the cube of half side `scale` around the
/// origin.
pub open spec fn first_frame(depth: nat, scale: i32) -> Frame {
    Frame { center: Point3::zero(), scale, base: 0, search: 0, left: (depth - 1) as usize }
}

/// The frame of the eight children of the cell `idx` of a frame: bit 2 of
/// `idx` says whether the cell is above the center in x, bit 1 in y, bit 0
/// in z.
pub open spec fn next_frame(f: Frame, idx: nat) -> Frame {
    Frame {
        center: octant_centre(f.center, f.scale, idx),
        scale: half(f.scale as int) as i32,
        base: (f.base * 8 + 8) as usize,
        search: ((f.search + idx) * 8) as usize,
        left: (f.left - 1) as usize,
    }
}

/// The place of the cell `idx` of a frame in the array.
pub open spec fn addr_of(f: Frame, idx: nat) -> int {
    f.base + f.search + idx
}

/// The cells of a frame that a shape reaches.
pub open spec fn touched<Q: CheckRange3>(shape: Q, f: Frame) -> Seq<bool> {
    reached(shape, f.center)
}

/// The cells after a key was put into the cells `from`, `from + 1`, ... of
/// a frame, as far as the key reaches them.
pub open spec fn insert_into<K: CheckRange3 + Intersects<K>, V>(
    cells: Seq<Slot<K, V>>,
    f: Frame,
    key: K,
    value: V,
    from: nat,
) -> Seq<Slot<K, V>>
    decreases f.left, 20 - 2 * from, 0nat,
{
    if from >= 8 {
        cells
    } else if !touched(key, f)[from as int] {
        insert_into(cells, f, key, value, from + 1)
    } else {
        insert_into(insert_cell(cells, f, key, value, from), f, key, value, from + 1)
    }
}

/// The cells after a key was put into the cell `idx` of a frame.
///
/// An empty cell takes the key. A cell with one key takes the second key
/// beside it where the two overlap, or where no level is left; else it
/// hands both down to its children. A cell with several keys takes one more
/// where the new key overlaps them all, or where no level is left; else it
/// hands all down. A cell that handed down before hands the key down.
pub open spec fn insert_cell<K: CheckRange3 + Intersects<K>, V>(
    cells: Seq<Slot<K, V>>,
    f: Frame,
    key: K,
    value: V,
    idx: nat,
) -> Seq<Slot<K, V>>
    decreases f.left, 19 - 2 * idx, 0nat,
{
    let at = addr_of(f, idx);
    let taken = cells.update(at, Slot::Empty);
    if idx >= 8 {
        cells
    } else {
        match cells[at] {
            Slot::Empty => cells.update(at, Slot::Data(key, value)),
            Slot::Child => if f.left == 0 {
                cells
            } else {
                insert_into(taken, next_frame(f, idx), key, value, 0).update(at, Slot::Child)
            },
            Slot::Data(k, v) => if f.left != 0 && !k.overlaps(&key) {
                let below = next_frame(f, idx);
                insert_into(insert_into(taken, below, k, v, 0), below, key, value, 0).update(
                    at,
                    Slot::Child,
                )
            } else {
                cells.update(at, Slot::Collide(seq![(k, v), (key, value)]))
            },
            Slot::Collide(list) => if f.left == 0 || overlaps_all(key, list) {
                cells.update(at, Slot::Collide(list.push((key, value))))
            } else {
                let below = next_frame(f, idx);
                insert_into(insert_all(taken, below, list, 0), below, key, value, 0).update(
                    at,
                    Slot::Child,
                )
            },
        }
    }
}

/// The cells after the entries `from`, `from + 1`, ... of a list were put
/// into a frame, one after another.
pub open spec fn insert_all<K: CheckRange3 + Intersects<K>, V>(
    cells: Seq<Slot<K, V>>,
    f: Frame,
    list: Seq<(K, V)>,
    from: nat,
) -> Seq<Slot<K, V>>
    decreases f.left, 21nat, list.len() - from,
{
    if from >= list.len() {
        cells
    } else {
        insert_all(
            insert_into(cells, f, list[from as int].0, list[from as int].1, 0),
            f,
            list,
            from + 1,
        )
    }
}

/// The cells after a key was taken out of the cells `from`, `from + 1`,
/// ... of a frame, as far as the key reaches them.
pub open spec fn remove_from<K: CheckRange3 + PartialEq, V>(
    cells: Seq<Slot<K, V>>,
    f: Frame,
    key: K,
    from: nat,
) -> Seq<Slot<K, V>>
    decreases f.left, 20 - 2 * from,
{
    if from >= 8 {
        cells
    } else if !touched(key, f)[from as int] {
        remove_from(cells, f, key, from + 1)
    } else {
        remove_from(remove_cell(cells, f, key, from), f, key, from + 1)
    }
}

/// The cells after a key was taken out of the cell `idx` of a frame: a
/// cell with that key alone becomes empty, a cell with several keys loses
/// the first entry with that key, and a cell that handed down has the key
/// taken out of its children.
pub open spec fn remove_cell<K: CheckRange3 + PartialEq, V>(
    cells: Seq<Slot<K, V>>,
    f: Frame,
    key: K,
    idx: nat,
) -> Seq<Slot<K, V>>
    decreases f.left, 19 - 2 * idx,
{
    let at = addr_of(f, idx);
    if idx >= 8 {
        cells
    } else {
        match cells[at] {
            Slot::Empty => cells,
            Slot::Child => if f.left == 0 {
                cells
            } else {
                remove_from(cells.update(at, Slot::Empty), next_frame(f, idx), key, 0).update(
                    at,
                    Slot::Child,
                )
            },
            Slot::Data(k, v) => if k.eq_spec(&key) {
                cells.update(at, Slot::Empty)
            } else {
                cells
            },
            Slot::Collide(list) => cells.update(at, Slot::Collide(without_first(list, key))),
        }
    }
}

/// What a query shape finds in the cells `from`, `from + 1`, ... of a
/// frame: everything held by the cells that the shape reaches, cell by
/// cell, whether or not the keys themselves overlap the shape.
pub open spec fn query_from<K, V, Q: CheckRange3>(
    cells: Seq<Slot<K, V>>,
    f: Frame,
    shape: Q,
    from: nat,
) -> Seq<(K, V)>
    decreases f.left, 20 - 2 * from,
{
    if from >= 8 {
        Seq::empty()
    } else if !touched(shape, f)[from as int] {
        query_from(cells, f, shape, from + 1)
    } else {
        query_cell(cells, f, shape, from) + query_from(cells, f, shape, from + 1)
    }
}

/// What a query shape finds in the cell `idx` of a frame.
pub open spec fn query_cell<K, V, Q: CheckRange3>(
    cells: Seq<Slot<K, V>>,
    f: Frame,
    shape: Q,
    idx: nat,
) -> Seq<(K, V)>
    decreases f.left, 19 - 2 * idx,
{
    if idx >= 8 {
        Seq::empty()
    } else {
        match cells[addr_of(f, idx)] {
            Slot::Empty => Seq::empty(),
            Slot::Child => if f.left == 0 {
                Seq::empty()
            } else {
                query_from(cells, next_frame(f, idx), shape, 0)
            },
            Slot::Data(k, v) => seq![(k, v)],
            Slot::Collide(list) => list,
        }
    }
}

/// The cells are those of `depth` levels, and no cell of the last level
/// has handed down.
pub open spec fn cells_ok<K, V>(cells: Seq<Slot<K, V>>, depth: nat) -> bool {
    &&& depth >= 1
    &&& size_upto(depth) <= usize::MAX
    &&& cells.len() == size_upto(depth)
    &&& forall|a: int|
        size_upto((depth - 1) as nat) <= a < cells.len() ==> !((#[trigger] cells[a]) is Child)
}

/// An octree of fixed depth around the origin.
pub struct Linear<K, V> {
    scale: i32,
    depth: usize,
    data: Vec<Node<K, V>>,
}

/// The number of cells of an octree of `depth` levels.
pub fn calc_size(depth: usize) -> (total: usize)
    requires
        size_upto(depth as nat) <= usize::MAX,
    ensures
        total == size_upto(depth as nat),
{
    let mut total: usize = 0;
    let mut i: usize = 0;
    while i < depth
        invariant
            i <= depth,
            total == size_upto(i as nat),
            size_upto(depth as nat) <= usize::MAX,
        decreases depth - i,
    {
        proof {
            lemma_size_upto_grows((i + 1) as nat, depth as nat);
        }
        total = total * 8 + 8;
        i += 1;
    }
    total
}

/// More levels have at least as many cells.
pub proof fn lemma_size_upto_grows(a: nat, b: nat)
    requires
        a <= b,
    ensures
        size_upto(a) <= size_upto(b),
    decreases b,
{
    if a < b {
        lemma_size_upto_grows(a, (b - 1) as nat);
    }
}

/// An octree of at most ten levels has fewer cells than a 32-bit index
/// can count.
pub proof fn lemma_ten_levels_fit(depth: nat)
    requires
        depth <= 10,
    ensures
        size_upto(depth) <= 1_227_133_512,
        size_upto(depth) <= usize::MAX,
{
    reveal_with_fuel(size_upto, 11);
    assert(size_upto(10) == 1_227_133_512);
    lemma_size_upto_grows(depth, 10);
}

impl Frame {
    /// The frame of the first level of an octree.
    fn start(depth: usize, scale: i32) -> (f: Frame)
        requires
            depth >= 1,
            size_upto(depth as nat) <= usize::MAX,
        ensures
            f == first_frame(depth as nat, scale),
            frame_ok(f, depth as nat),
    {
        Frame { center: Point3::origin(), scale, base: 0, search: 0, left: depth - 1 }
    }

    /// The frame of the children of the cell `idx`.
    fn next(&self, idx: usize, Ghost(depth): Ghost<nat>) -> (f: Frame)
        requires
            idx < 8,
            self.left != 0,
            frame_ok(*self, depth),
        ensures
            f == next_frame(*self, idx as nat),
            frame_ok(f, depth),
    {
        proof {
            lemma_size_upto_grows((depth - self.left + 1) as nat, depth);
            assert(size_upto((depth - self.left + 1) as nat) == 8 * size_upto(
                (depth - self.left) as nat,
            ) + 8);
            assert(size_upto((depth - self.left) as nat) == 8 * self.base + 8);
        }
        let hscale = half_i32(self.scale);
        let center = centre_of(self.center, self.scale, idx);
        Frame {
            center,
            scale: hscale,
            base: self.base * 8 + 8,
            search: (self.search + idx) * 8,
            left: self.left - 1,
        }
    }

    /// The place of the cell `idx` in the array.
    fn addr(&self, idx: usize, Ghost(depth): Ghost<nat>) -> (a: usize)
        requires
            idx < 8,
            frame_fits(*self, depth),
        ensures
            a == addr_of(*self, idx as nat),
            self.base <= a < size_upto((depth - self.left) as nat),
            a < size_upto(depth),
    {
        proof {
            lemma_size_upto_grows((depth - self.left) as nat, depth);
        }
        self.base + self.search + idx
    }
}

impl<K: Copy + CheckRange3 + Intersects<K> + PartialEq, V: Copy> Linear<K, V> {
    /// The cells of the octree.
    pub closed spec fn view(&self) -> Seq<Slot<K, V>> {
        models(self.data@)
    }

    /// The number of levels.
    pub closed spec fn levels(&self) -> nat {
        self.depth as nat
    }

    /// Half the side of the cube that the octree divides.
    pub closed spec fn half_side(&self) -> i32 {
        self.scale
    }

    /// The frame of the first level.
    pub open spec fn top(&self) -> Frame {
        first_frame(self.levels(), self.half_side())
    }

    /// The array is that of the levels of the octree, and no cell of the
    /// last level has handed down.
    pub open spec fn wf(&self) -> bool {
        cells_ok(self@, self.levels())
    }

    /// An empty octree of `depth` levels for the cube of half side `size`
    /// around the origin.
    pub fn new(size: i32, depth: usize) -> (oct: Linear<K, V>)
        requires
            depth != 0,
            size_upto(depth as nat) <= usize::MAX,
        ensures
            oct.wf(),
            oct.levels() == depth,
            oct.half_side() == size,
            oct@ == Seq::new(size_upto(depth as nat), |i: int| Slot::<K, V>::Empty),
    {
        let elements = calc_size(depth);
        let mut data: Vec<Node<K, V>> = Vec::new();
        let mut i: usize = 0;
        while i < elements
            invariant
                i <= elements,
                data@.len() == i,
                forall|j: int| 0 <= j < i ==> (#[trigger] data@[j]) is Empty,
            decreases elements - i,
        {
            data.push(Node::Empty);
            i += 1;
        }
        let oct = Linear { scale: size, depth, data };
        assert(oct@ =~= Seq::new(size_upto(depth as nat), |i: int| Slot::<K, V>::Empty));
        oct
    }

    /// Puts a key into the cells of a frame that it reaches.
    fn _insert(&mut self, frame: Frame, key: &K, value: &V)
        requires
            old(self).wf(),
            frame_ok(frame, old(self).levels()),
        ensures
            final(self).wf(),
            final(self).levels() == old(self).levels(),
            final(self).half_side() == old(self).half_side(),
            final(self)@ == insert_into(old(self)@, frame, *key, *value, 0),
        decreases frame.left,
    {
        let ghost depth = self.levels();
        let mask = key.check3(&frame.center, frame.scale);
        let mut idx: usize = 0;
        while idx < 8
            invariant
                idx <= 8,
                self.wf(),
                self.levels() == depth,
                depth == old(self).levels(),
                self.half_side() == old(self).half_side(),
                frame_ok(frame, depth),
                mask@ == touched(*key, frame),
                insert_into(self@, frame, *key, *value, idx as nat) == insert_into(
                    old(self)@,
                    frame,
                    *key,
                    *value,
                    0,
                ),
            decreases 8 - idx,
        {
            if mask[idx] {
                let at = frame.addr(idx, Ghost(depth));
                let ghost before = self@;
                let mut next = Node::Empty;
                core::mem::swap(&mut next, &mut self.data[at]);
                assert(self@ =~= before.update(at as int, Slot::Empty));
                let ghost taken = self@;
                let put = match next {
                    Node::Empty => Node::Data(*key, *value),
                    Node::Child => {
                        assert(before[at as int] is Child);
                        self._insert(frame.next(idx, Ghost(depth)), key, value);
                        Node::Child
                    },
                    Node::Data(old_key, old_value) => {
                        if frame.left != 0 && !old_key.intersect(key) {
                            let below = frame.next(idx, Ghost(depth));
                            self._insert(below, &old_key, &old_value);
                            self._insert(below, key, value);
                            Node::Child
                        } else {
                            let mut list: Vec<(K, V)> = Vec::new();
                            list.push((old_key, old_value));
                            list.push((*key, *value));
                            assert(list@ =~= seq![(old_key, old_value), (*key, *value)]);
                            Node::Collide(list)
                        }
                    },
                    Node::Collide(mut list) => {
                        let add_to_self = if frame.left == 0 {
                            true
                        } else {
                            let mut all_collide = true;
                            let mut i: usize = 0;
                            while i < list.len()
                                invariant
                                    i <= list.len(),
                                    all_collide == overlaps_all(*key, list@.take(i as int)),
                                decreases list.len() - i,
                            {
                                let hit = key.intersect(&list[i].0);
                                proof {
                                    let grown = list@.take(i + 1);
                                    assert(grown[i as int] == list@[i as int]);
                                    assert(forall|j: int|
                                        0 <= j < i ==> grown[j] == list@.take(i as int)[j]);
                                    if all_collide && hit {
                                        assert forall|j: int| 0 <= j < grown.len() implies key.overlaps(
                                            &(#[trigger] grown[j]).0,
                                        ) by {
                                            if j < i {
                                                assert(grown[j] == list@.take(i as int)[j]);
                                            }
                                        }
                                    } else if !all_collide {
                                        let j = choose|j: int|
                                            0 <= j < i && !key.overlaps(
                                                &(#[trigger] list@.take(i as int)[j]).0,
                                            );
                                        assert(grown[j] == list@.take(i as int)[j]);
                                    }
                                }
                                all_collide = all_collide && hit;
                                i += 1;
                            }
                            assert(list@.take(list@.len() as int) =~= list@);
                            all_collide
                        };
                        if add_to_self {
                            list.push((*key, *value));
                            Node::Collide(list)
                        } else {
                            let below = frame.next(idx, Ghost(depth));
                            let mut i: usize = 0;
                            while i < list.len()
                                invariant
                                    i <= list.len(),
                                    self.wf(),
                                    self.levels() == depth,
                                    self.half_side() == old(self).half_side(),
                                    frame_ok(below, depth),
                                    below.left < frame.left,
                                    insert_all(self@, below, list@, i as nat) == insert_all(
                                        taken,
                                        below,
                                        list@,
                                        0,
                                    ),
                                decreases list.len() - i,
                            {
                                let (k, v) = list[i];
                                self._insert(below, &k, &v);
                                i += 1;
                            }
                            self._insert(below, key, value);
                            Node::Child
                        }
                    },
                };
                let ghost filled = self@;
                self.data.set(at, put);
                proof {
                    assert(self@ =~= filled.update(at as int, put.model()));
                    assert(self@ == insert_cell(before, frame, *key, *value, idx as nat));
                    assert(self.wf()) by {
                        if frame.left > 0 {
                            lemma_size_upto_grows((depth - frame.left) as nat, (depth - 1) as nat);
                        }
                    }
                }
            }
            idx += 1;
        }
    }

    /// Puts a key with its value into every cell that the key reaches.
    pub fn insert(&mut self, key: K, value: V)
        requires
            old(self).wf(),
        ensures
            final(self).wf(),
            final(self).levels() == old(self).levels(),
            final(self).half_side() == old(self).half_side(),
            final(self)@ == insert_into(old(self)@, old(self).top(), key, value, 0),
    {
        let scale = self.scale;
        let depth = self.depth;
        self._insert(Frame::start(depth, scale), &key, &value);
    }

    /// Takes a key out of the cells of a frame that it reaches.
    fn _remove(&mut self, frame: Frame, key: &K)
        requires
            old(self).wf(),
            frame_ok(frame, old(self).levels()),
        ensures
            final(self).wf(),
            final(self).levels() == old(self).levels(),
            final(self).half_side() == old(self).half_side(),
            K::obeys_eq_spec() ==> final(self)@ == remove_from(old(self)@, frame, *key, 0),
        decreases frame.left,
    {
        let ghost depth = self.levels();
        let mask = key.check3(&frame.center, frame.scale);
        let mut idx: usize = 0;
        while idx < 8
            invariant
                idx <= 8,
                self.wf(),
                self.levels() == depth,
                depth == old(self).levels(),
                self.half_side() == old(self).half_side(),
                frame_ok(frame, depth),
                mask@ == touched(*key, frame),
                K::obeys_eq_spec() ==> remove_from(self@, frame, *key, idx as nat) == remove_from(
                    old(self)@,
                    frame,
                    *key,
                    0,
                ),
            decreases 8 - idx,
        {
            if mask[idx] {
                let at = frame.addr(idx, Ghost(depth));
                let ghost before = self@;
                let mut next = Node::Empty;
                core::mem::swap(&mut next, &mut self.data[at]);
                assert(self@ =~= before.update(at as int, Slot::Empty));
                let put = match next {
                    Node::Empty => Node::Empty,
                    Node::Child => {
                        assert(before[at as int] is Child);
                        self._remove(frame.next(idx, Ghost(depth)), key);
                        Node::Child
                    },
                    Node::Data(k, v) => {
                        if k == *key {
                            Node::Empty
                        } else {
                            Node::Data(k, v)
                        }
                    },
                    Node::Collide(mut list) => {
                        let mut i: usize = 0;
                        while i < list.len() && !(list[i].0 == *key)
                            invariant
                                i <= list.len(),
                                K::obeys_eq_spec() ==> first_equal(list@, *key, i as nat) == first_equal(
                                    list@,
                                    *key,
                                    0,
                                ),
                            decreases list.len() - i,
                        {
                            i += 1;
                        }
                        if i < list.len() {
                            list.remove(i);
                        }
                        Node::Collide(list)
                    },
                };
                let ghost filled = self@;
                self.data.set(at, put);
                proof {
                    assert(self@ =~= filled.update(at as int, put.model()));
                    if K::obeys_eq_spec() {
                        assert(self@ =~= remove_cell(before, frame, *key, idx as nat));
                    }
                    assert(self.wf()) by {
                        if frame.left > 0 {
                            lemma_size_upto_grows((depth - frame.left) as nat, (depth - 1) as nat);
                        }
                    }
                }
            }
            idx += 1;
        }
    }

    /// Takes a key out of every cell that the key reaches: a cell that
    /// holds that key alone becomes empty, and a cell with several keys
    /// loses the first entry with that key.
    pub fn remove(&mut self, key: K)
        requires
            old(self).wf(),
        ensures
            final(self).wf(),
            final(self).levels() == old(self).levels(),
            final(self).half_side() == old(self).half_side(),
            K::obeys_eq_spec() ==> final(self)@ == remove_from(old(self)@, old(self).top(), key, 0),
    {
        let scale = self.scale;
        let depth = self.depth;
        self._remove(Frame::start(depth, scale), &key);
    }

    /// Adds to `found` what the cells of a frame hold that a shape reaches.
    fn _quary<Q: CheckRange3>(&self, frame: Frame, key: &Q, found: &mut Vec<(K, V)>)
        requires
            self.wf(),
            frame_ok(frame, self.levels()),
        ensures
            final(found)@ == old(found)@ + query_from(self@, frame, *key, 0),
        decreases frame.left,
    {
        let ghost depth = self.levels();
        let mask = key.check3(&frame.center, frame.scale);
        let mut idx: usize = 0;
        while idx < 8
            invariant
                idx <= 8,
                self.wf(),
                self.levels() == depth,
                frame_ok(frame, depth),
                mask@ == touched(*key, frame),
                found@ + query_from(self@, frame, *key, idx as nat) == old(found)@ + query_from(
                    self@,
                    frame,
                    *key,
                    0,
                ),
            decreases 8 - idx,
        {
            let ghost so_far = found@;
            if mask[idx] {
                let at = frame.addr(idx, Ghost(depth));
                match &self.data[at] {
                    Node::Empty => {},
                    Node::Child => {
                        assert(self@[at as int] is Child);
                        self._quary(frame.next(idx, Ghost(depth)), key, found);
                    },
                    Node::Data(k, v) => {
                        found.push((*k, *v));
                    },
                    Node::Collide(list) => {
                        let mut i: usize = 0;
                        while i < list.len()
                            invariant
                                i <= list.len(),
                                found@ == so_far + list@.take(i as int),
                            decreases list.len() - i,
                        {
                            found.push(list[i]);
                            assert(list@.take(i + 1) =~= list@.take(i as int).push(list@[i as int]));
                            i += 1;
                        }
                        assert(list@.take(list@.len() as int) =~= list@);
                    },
                }
                assert(found@ =~= so_far + query_cell(self@, frame, *key, idx as nat));
                assert(found@ + query_from(self@, frame, *key, (idx + 1) as nat) =~= so_far
                    + query_from(self@, frame, *key, idx as nat));
            }
            idx += 1;
        }
        assert(found@ + query_from(self@, frame, *key, 8) =~= found@);
    }

    /// Everything held by the cells that a query shape reaches, in the
    /// order of the cells. The keys found need not overlap the shape: they
    /// share a cell with it.
    pub fn quary<Q: CheckRange3>(&self, key: &Q) -> (found: Vec<(K, V)>)
        requires
            self.wf(),
        ensures
            found@ == query_from(self@, self.top(), *key, 0),
    {
        let mut found: Vec<(K, V)> = Vec::new();
        self._quary(Frame::start(self.depth, self.scale), key, &mut found);
        assert(Seq::<(K, V)>::empty() + query_from(self@, self.top(), *key, 0) =~= query_from(
            self@,
            self.top(),
            *key,
            0,
        ));
        found
    }
}

impl<K: Copy, V: Copy> Clone for Node<K, V> {
    fn clone(&self) -> (copy: Node<K, V>)
        ensures
            copy.model() == self.model(),
    {
        match self {
            Node::Empty => Node::Empty,
            Node::Child => Node::Child,
            Node::Data(k, v) => Node::Data(*k, *v),
            Node::Collide(list) => {
                let mut copied: Vec<(K, V)> = Vec::new();
                let mut i: usize = 0;
                while i < list.len()
                    invariant
                        i <= list.len(),
                        copied@ == list@.take(i as int),
                    decreases list.len() - i,
                {
                    copied.push(list[i]);
                    assert(list@.take(i + 1) =~= list@.take(i as int).push(list@[i as int]));
                    i += 1;
                }
                assert(list@.take(list@.len() as int) =~= list@);
                Node::Collide(copied)
            },
        }
    }
}

impl<K: Copy + CheckRange3 + Intersects<K> + PartialEq, V: Copy> Clone for Linear<K, V> {
    /// A copy of the octree with cells of its own.
    fn clone(&self) -> (copy: Linear<K, V>)
        ensures
            copy@ == self@,
            copy.levels() == self.levels(),
            copy.half_side() == self.half_side(),
    {
        let mut data: Vec<Node<K, V>> = Vec::new();
        let mut i: usize = 0;
        while i < self.data.len()
            invariant
                i <= self.data@.len(),
                data@.len() == i,
                forall|j: int| 0 <= j < i ==> (#[trigger] data@[j]).model() == self.data@[j].model(),
            decreases self.data@.len() - i,
        {
            data.push(self.data[i].clone());
            i += 1;
        }
        let copy = Linear { scale: self.scale, depth: self.depth, data };
        assert(copy@ =~= self@);
        copy
    }
}

/// Whether the place `a` is one of the cells `lo` to `hi` of the level that
/// starts at `base`, or lies under one of them in the `left` levels below.
spec fn under(a: int, base: int, lo: int, hi: int, left: nat) -> bool
    decreases left,
{
    (base + lo <= a < base + hi) || (left > 0 && under(
        a,
        8 * base + 8,
        8 * lo,
        8 * hi,
        (left - 1) as nat,
    ))
}

/// Whether the place `a` is one of the cells `from` to 7 of a frame, or lies
/// under one of them.
spec fn region(f: Frame, from: nat, a: int) -> bool {
    under(a, f.base as int, f.search + from, f.search + 8, f.left as nat)
}

/// Whether the place `a` is the cell `idx` of a frame, or lies under it.
spec fn footprint(f: Frame, idx: nat, a: int) -> bool {
    under(a, f.base as int, f.search + idx, f.search + idx + 1, f.left as nat)
}

proof fn lemma_under_low(a: int, base: int, lo: int, hi: int, left: nat)
    requires
        0 <= base,
        0 <= lo,
        under(a, base, lo, hi, left),
    ensures
        a >= base + lo,
    decreases left,
{
    if !(base + lo <= a < base + hi) {
        lemma_under_low(a, 8 * base + 8, 8 * lo, 8 * hi, (left - 1) as nat);
    }
}

proof fn lemma_under_wider(a: int, base: int, lo: int, hi: int, lo2: int, hi2: int, left: nat)
    requires
        lo2 <= lo,
        hi <= hi2,
        under(a, base, lo, hi, left),
    ensures
        under(a, base, lo2, hi2, left),
    decreases left,
{
    if !(base + lo <= a < base + hi) {
        lemma_under_wider(a, 8 * base + 8, 8 * lo, 8 * hi, 8 * lo2, 8 * hi2, (left - 1) as nat);
    }
}

/// No place lies under two runs of cells of one level that do not meet.
proof fn lemma_under_apart(a: int, base: int, lo: int, hi: int, lo2: int, hi2: int, left: nat)
    requires
        0 <= base,
        0 <= lo <= hi <= lo2 <= hi2 <= 7 * base + 8,
    ensures
        !(under(a, base, lo, hi, left) && under(a, base, lo2, hi2, left)),
    decreases left,
{
    if under(a, base, lo, hi, left) && under(a, base, lo2, hi2, left) {
        let here = base + lo <= a < base + hi;
        let there = base + lo2 <= a < base + hi2;
        if here && there {
        } else if here {
            lemma_under_low(a, 8 * base + 8, 8 * lo2, 8 * hi2, (left - 1) as nat);
        } else if there {
            lemma_under_low(a, 8 * base + 8, 8 * lo, 8 * hi, (left - 1) as nat);
        } else {
            lemma_under_apart(a, 8 * base + 8, 8 * lo, 8 * hi, 8 * lo2, 8 * hi2, (left - 1) as nat);
        }
    }
}

/// The frame of the children of a cell lies where the arithmetic says, and
/// fits the octree.
proof fn lemma_next_fits(f: Frame, idx: nat, depth: nat)
    requires
        frame_fits(f, depth),
        f.left > 0,
        idx < 8,
    ensures
        frame_fits(next_frame(f, idx), depth),
        next_frame(f, idx).base == 8 * f.base + 8,
        next_frame(f, idx).search == 8 * (f.search + idx),
        next_frame(f, idx).left == f.left - 1,
        addr_of(f, idx) < size_upto((depth - f.left) as nat) <= size_upto((depth - 1) as nat),
        size_upto((depth - f.left) as nat) == 8 * f.base + 8,
{
    lemma_size_upto_grows((depth - f.left + 1) as nat, depth);
    lemma_size_upto_grows((depth - f.left) as nat, (depth - 1) as nat);
    assert(size_upto((depth - f.left + 1) as nat) == 8 * size_upto((depth - f.left) as nat) + 8);
    assert(size_upto((depth - f.left) as nat) == 8 * f.base + 8);
}

/// The cell of a frame is a place of the array; on the last level it lies
/// in the last part of the array.
proof fn lemma_addr_fits(f: Frame, idx: nat, depth: nat)
    requires
        frame_fits(f, depth),
        idx < 8,
    ensures
        0 <= addr_of(f, idx) < size_upto(depth),
        f.left == 0 ==> addr_of(f, idx) >= size_upto((depth - 1) as nat),
        f.left > 0 ==> addr_of(f, idx) < size_upto((depth - 1) as nat),
        footprint(f, idx, addr_of(f, idx)),
{
    lemma_size_upto_grows((depth - f.left) as nat, depth);
    assert(size_upto((depth - f.left) as nat) == 8 * f.base + 8);
    if f.left > 0 {
        lemma_size_upto_grows((depth - f.left) as nat, (depth - 1) as nat);
    }
}

/// What putting a key into the cells of a frame changes: only places under
/// those cells. The array stays that of an octree.
proof fn lemma_insert_into_frame<K: CheckRange3 + Intersects<K>, V>(
    cells: Seq<Slot<K, V>>,
    f: Frame,
    key: K,
    value: V,
    from: nat,
    depth: nat,
)
    requires
        cells_ok(cells, depth),
        frame_fits(f, depth),
    ensures
        cells_ok(insert_into(cells, f, key, value, from), depth),
        forall|a: int|
            0 <= a < cells.len() && !region(f, from, a) ==> #[trigger] insert_into(
                cells,
                f,
                key,
                value,
                from,
            )[a] == cells[a],
    decreases f.left, 20 - 2 * from, 0nat,
{
    if from < 8 {
        let out = insert_into(cells, f, key, value, from);
        if !touched(key, f)[from as int] {
            lemma_insert_into_frame(cells, f, key, value, from + 1, depth);
            assert forall|a: int| 0 <= a < cells.len() && !region(f, from, a) implies #[trigger] out[a]
                == cells[a] by {
                if region(f, from + 1, a) {
                    lemma_under_wider(
                        a,
                        f.base as int,
                        f.search + from + 1,
                        f.search + 8,
                        f.search + from,
                        f.search + 8,
                        f.left as nat,
                    );
                }
            }
        } else {
            let mid = insert_cell(cells, f, key, value, from);
            lemma_insert_cell_frame(cells, f, key, value, from, depth);
            lemma_insert_into_frame(mid, f, key, value, from + 1, depth);
            assert forall|a: int| 0 <= a < cells.len() && !region(f, from, a) implies #[trigger] out[a]
                == cells[a] by {
                if region(f, from + 1, a) {
                    lemma_under_wider(
                        a,
                        f.base as int,
                        f.search + from + 1,
                        f.search + 8,
                        f.search + from,
                        f.search + 8,
                        f.left as nat,
                    );
                }
                if footprint(f, from, a) {
                    lemma_under_wider(
                        a,
                        f.base as int,
                        f.search + from,
                        f.search + from + 1,
                        f.search + from,
                        f.search + 8,
                        f.left as nat,
                    );
                }
                assert(mid[a] == cells[a]);
            }
        }
    }
}

proof fn lemma_insert_cell_frame<K: CheckRange3 + Intersects<K>, V>(
    cells: Seq<Slot<K, V>>,
    f: Frame,
    key: K,
    value: V,
    idx: nat,
    depth: nat,
)
    requires
        cells_ok(cells, depth),
        frame_fits(f, depth),
        idx < 8,
    ensures
        cells_ok(insert_cell(cells, f, key, value, idx), depth),
        forall|a: int|
            0 <= a < cells.len() && !footprint(f, idx, a) ==> #[trigger] insert_cell(
                cells,
                f,
                key,
                value,
                idx,
            )[a] == cells[a],
    decreases f.left, 19 - 2 * idx, 0nat,
{
    let at = addr_of(f, idx);
    lemma_addr_fits(f, idx, depth);
    let taken = cells.update(at, Slot::Empty);
    let out = insert_cell(cells, f, key, value, idx);
    let divides = match cells[at] {
        Slot::Empty => false,
        Slot::Child => f.left != 0,
        Slot::Data(k, v) => f.left != 0 && !k.overlaps(&key),
        Slot::Collide(list) => !(f.left == 0 || overlaps_all(key, list)),
    };
    if divides {
        let below = next_frame(f, idx);
        lemma_next_fits(f, idx, depth);
        assert(cells_ok(taken, depth));
        let start = match cells[at] {
            Slot::Data(k, v) => insert_into(taken, below, k, v, 0),
            Slot::Collide(list) => insert_all(taken, below, list, 0),
            _ => taken,
        };
        match cells[at] {
            Slot::Data(k, v) => {
                lemma_insert_into_frame(taken, below, k, v, 0, depth);
            },
            Slot::Collide(list) => {
                lemma_insert_all_frame(taken, below, list, 0, depth);
            },
            _ => {},
        }
        lemma_insert_into_frame(start, below, key, value, 0, depth);
        let filled = insert_into(start, below, key, value, 0);
        assert(out == filled.update(at, Slot::Child));
        assert forall|a: int| 0 <= a < cells.len() && !footprint(f, idx, a) implies #[trigger] out[a]
            == cells[a] by {
            assert(!region(below, 0, a));
            assert(start[a] == taken[a]);
            assert(filled[a] == start[a]);
        }
    }
}

proof fn lemma_insert_all_frame<K: CheckRange3 + Intersects<K>, V>(
    cells: Seq<Slot<K, V>>,
    f: Frame,
    list: Seq<(K, V)>,
    from: nat,
    depth: nat,
)
    requires
        cells_ok(cells, depth),
        frame_fits(f, depth),
    ensures
        cells_ok(insert_all(cells, f, list, from), depth),
        forall|a: int|
            0 <= a < cells.len() && !region(f, 0, a) ==> #[trigger] insert_all(cells, f, list, from)[a]
                == cells[a],
    decreases f.left, 21nat, list.len() - from,
{
    if from < list.len() {
        let mid = insert_into(cells, f, list[from as int].0, list[from as int].1, 0);
        lemma_insert_into_frame(cells, f, list[from as int].0, list[from as int].1, 0, depth);
        lemma_insert_all_frame(mid, f, list, from + 1, depth);
        assert forall|a: int| 0 <= a < cells.len() && !region(f, 0, a) implies #[trigger] insert_all(
            cells,
            f,
            list,
            from,
        )[a] == cells[a] by {
            assert(mid[a] == cells[a]);
        }
    }
}

/// A query sees only the places under the cells that it starts from.
proof fn lemma_query_from_same<K, V, Q: CheckRange3>(
    one: Seq<Slot<K, V>>,
    two: Seq<Slot<K, V>>,
    f: Frame,
    shape: Q,
    from: nat,
    depth: nat,
)
    requires
        frame_fits(f, depth),
        one.len() == size_upto(depth),
        two.len() == one.len(),
        forall|a: int| 0 <= a < one.len() && region(f, from, a) ==> #[trigger] one[a] == two[a],
    ensures
        query_from(one, f, shape, from) == query_from(two, f, shape, from),
    decreases f.left, 20 - 2 * from,
{
    if from < 8 {
        assert forall|a: int| 0 <= a < one.len() && region(f, from + 1, a) implies #[trigger] one[a]
            == two[a] by {
            lemma_under_wider(
                a,
                f.base as int,
                f.search + from + 1,
                f.search + 8,
                f.search + from,
                f.search + 8,
                f.left as nat,
            );
        }
        lemma_query_from_same(one, two, f, shape, from + 1, depth);
        if touched(shape, f)[from as int] {
            assert forall|a: int| 0 <= a < one.len() && footprint(f, from, a) implies #[trigger] one[a]
                == two[a] by {
                lemma_under_wider(
                    a,
                    f.base as int,
                    f.search + from,
                    f.search + from + 1,
                    f.search + from,
                    f.search + 8,
                    f.left as nat,
                );
            }
            lemma_query_cell_same(one, two, f, shape, from, depth);
        }
    }
}

proof fn lemma_query_cell_same<K, V, Q: CheckRange3>(
    one: Seq<Slot<K, V>>,
    two: Seq<Slot<K, V>>,
    f: Frame,
    shape: Q,
    idx: nat,
    depth: nat,
)
    requires
        frame_fits(f, depth),
        idx < 8,
        one.len() == size_upto(depth),
        two.len() == one.len(),
        forall|a: int| 0 <= a < one.len() && footprint(f, idx, a) ==> #[trigger] one[a] == two[a],
    ensures
        query_cell(one, f, shape, idx) == query_cell(two, f, shape, idx),
    decreases f.left, 19 - 2 * idx,
{
    let at = addr_of(f, idx);
    lemma_addr_fits(f, idx, depth);
    assert(one[at] == two[at]);
    if one[at] is Child && f.left != 0 {
        let below = next_frame(f, idx);
        lemma_next_fits(f, idx, depth);
        assert forall|a: int| 0 <= a < one.len() && region(below, 0, a) implies #[trigger] one[a]
            == two[a] by {
            assert(footprint(f, idx, a));
        }
        lemma_query_from_same(one, two, below, shape, 0, depth);
    }
}

/// What a query finds in a cell that it reaches, it finds in the frame.
proof fn lemma_query_from_has<K, V, Q: CheckRange3>(
    cells: Seq<Slot<K, V>>,
    f: Frame,
    shape: Q,
    from: nat,
    at: nat,
    entry: (K, V),
)
    requires
        from <= at < 8,
        touched(shape, f)[at as int],
        query_cell(cells, f, shape, at).contains(entry),
    ensures
        query_from(cells, f, shape, from).contains(entry),
    decreases 8 - from,
{
    let here = query_cell(cells, f, shape, from);
    let later = query_from(cells, f, shape, from + 1);
    if from < at {
        lemma_query_from_has(cells, f, shape, from + 1, at, entry);
        if touched(shape, f)[from as int] {
            let j = choose|j: int| 0 <= j < later.len() && later[j] == entry;
            assert((here + later)[here.len() + j] == entry);
        }
    } else {
        let j = choose|j: int| 0 <= j < here.len() && here[j] == entry;
        assert((here + later)[j] == entry);
    }
}

/// Round trip in a frame: a query with a key that was just put into the
/// cells of a frame finds the key with its value, if the key lies
/// somewhere.
pub proof fn lemma_frame_round_trip<K: CheckRange3 + Intersects<K>, V>(
    cells: Seq<Slot<K, V>>,
    f: Frame,
    key: K,
    value: V,
    depth: nat,
)
    requires
        cells_ok(cells, depth),
        frame_fits(f, depth),
        located(key),
    ensures
        query_from(insert_into(cells, f, key, value, 0), f, key, 0).contains((key, value)),
    decreases f.left, 2nat, 0nat,
{
    lemma_located_reaches(key, f.center);
    let at = some_octant(key.side_x(f.center.x), key.side_y(f.center.y), key.side_z(f.center.z));
    lemma_round_trip_from(cells, f, key, value, 0, at as nat, depth);
    lemma_query_from_has(
        insert_into(cells, f, key, value, 0),
        f,
        key,
        0,
        at as nat,
        (key, value),
    );
}

proof fn lemma_round_trip_from<K: CheckRange3 + Intersects<K>, V>(
    cells: Seq<Slot<K, V>>,
    f: Frame,
    key: K,
    value: V,
    from: nat,
    at: nat,
    depth: nat,
)
    requires
        cells_ok(cells, depth),
        frame_fits(f, depth),
        located(key),
        from <= at < 8,
        touched(key, f)[at as int],
    ensures
        query_cell(insert_into(cells, f, key, value, from), f, key, at).contains((key, value)),
    decreases f.left, 1nat, at - from,
{
    if from < at {
        let mid = if touched(key, f)[from as int] {
            insert_cell(cells, f, key, value, from)
        } else {
            cells
        };
        if touched(key, f)[from as int] {
            lemma_insert_cell_frame(cells, f, key, value, from, depth);
        }
        lemma_round_trip_from(mid, f, key, value, from + 1, at, depth);
    } else {
        let mid = insert_cell(cells, f, key, value, at);
        lemma_round_trip_cell(cells, f, key, value, at, depth);
        lemma_insert_cell_frame(cells, f, key, value, at, depth);
        lemma_insert_into_frame(mid, f, key, value, at + 1, depth);
        let out = insert_into(mid, f, key, value, at + 1);
        assert forall|a: int| 0 <= a < mid.len() && footprint(f, at, a) implies #[trigger] mid[a]
            == out[a] by {
            lemma_under_apart(
                a,
                f.base as int,
                f.search + at,
                f.search + at + 1,
                f.search + at + 1,
                f.search + 8,
                f.left as nat,
            );
        }
        lemma_query_cell_same(mid, out, f, key, at, depth);
    }
}

proof fn lemma_round_trip_cell<K: CheckRange3 + Intersects<K>, V>(
    cells: Seq<Slot<K, V>>,
    f: Frame,
    key: K,
    value: V,
    idx: nat,
    depth: nat,
)
    requires
        cells_ok(cells, depth),
        frame_fits(f, depth),
        located(key),
        idx < 8,
    ensures
        query_cell(insert_cell(cells, f, key, value, idx), f, key, idx).contains((key, value)),
    decreases f.left, 0nat, 0nat,
{
    let at = addr_of(f, idx);
    lemma_addr_fits(f, idx, depth);
    let taken = cells.update(at, Slot::Empty);
    let out = insert_cell(cells, f, key, value, idx);
    let found = query_cell(out, f, key, idx);
    let divides = match cells[at] {
        Slot::Empty => false,
        Slot::Child => f.left != 0,
        Slot::Data(k, v) => f.left != 0 && !k.overlaps(&key),
        Slot::Collide(list) => !(f.left == 0 || overlaps_all(key, list)),
    };
    if divides {
        let below = next_frame(f, idx);
        lemma_next_fits(f, idx, depth);
        assert(cells_ok(taken, depth));
        let start = match cells[at] {
            Slot::Data(k, v) => insert_into(taken, below, k, v, 0),
            Slot::Collide(list) => insert_all(taken, below, list, 0),
            _ => taken,
        };
        match cells[at] {
            Slot::Data(k, v) => {
                lemma_insert_into_frame(taken, below, k, v, 0, depth);
            },
            Slot::Collide(list) => {
                lemma_insert_all_frame(taken, below, list, 0, depth);
            },
            _ => {},
        }
        lemma_insert_into_frame(start, below, key, value, 0, depth);
        let filled = insert_into(start, below, key, value, 0);
        assert(out == filled.update(at, Slot::Child));
        lemma_frame_round_trip(start, below, key, value, depth);
        assert forall|a: int| 0 <= a < out.len() && region(below, 0, a) implies #[trigger] filled[a]
            == out[a] by {
            lemma_under_low(
                a,
                below.base as int,
                below.search as int,
                below.search + 8,
                below.left as nat,
            );
        }
        lemma_query_from_same(filled, out, below, key, 0, depth);
    } else {
        match out[at] {
            Slot::Data(k, v) => {
                assert(found[0] == (key, value));
            },
            Slot::Collide(list) => {
                assert(found[list.len() - 1] == (key, value));
            },
            _ => {},
        }
    }
}

impl<K: Copy + CheckRange3 + Intersects<K> + PartialEq, V: Copy> Linear<K, V> {
    /// The first frame of a well-formed octree fits it.
    pub proof fn lemma_top_fits(self)
        requires
            self.wf(),
        ensures
            frame_fits(self.top(), self.levels()),
    {
    }
}

} // verus!
