//! A bounding-volume hierarchy over Morton-sorted leaves, stored in one
//! array with the tree implicit in the indices.

use vstd::prelude::*;
use vstd::seq_lib::*;
use crate::layout::{
    exp2, fit, is_exp2, left_child, lemma_between_nodes, lemma_children, lemma_exp2_above, lemma_exp2_is_exp2,
    lemma_exp2_monotone, lemma_exp2_order, lemma_node_form, lemma_reach_form, lemma_reach_node,
    pow2, reach_of, right_child, root_of, trailing_ones,
};
use crate::morton::{grid_ratio, ratio_for, Scale2, Scale3, ToMorton};
use crate::point::{Point2, Point3};
use crate::{merge_covers, Center, Intersects, Max, Merge, Min};

verus! {

/// The largest number of items that a hierarchy is built over.
pub const MAX_ITEMS: usize = 0x2000_0000;

/// What the builder asks of a point type: to follow the two corners of a
/// growing box, and to say by what scale the box maps onto the Morton grid.
pub trait Corner: Sized + Copy {
    /// The per-axis scale that Morton codes are taken with.
    type Scale;

    spec fn zero_corner() -> Self;

    /// The componentwise smaller of two points.
    spec fn lower_of(&self, other: &Self) -> Self;

    /// The componentwise larger of two points.
    spec fn upper_of(&self, other: &Self) -> Self;

    /// The scale that maps the box from `self` to `max` onto the grid.
    spec fn scale_over(&self, max: &Self) -> Self::Scale;

    fn origin() -> (p: Self)
        ensures
            p == Self::zero_corner(),
    ;

    fn min(&self, other: &Self) -> (p: Self)
        ensures
            p == self.lower_of(other),
    ;

    fn max(&self, other: &Self) -> (p: Self)
        ensures
            p == self.upper_of(other),
    ;

    fn grid_scale(&self, max: &Self) -> (s: Self::Scale)
        ensures
            s == self.scale_over(max),
    ;
}

impl Corner for Point2 {
    type Scale = Scale2;

    open spec fn zero_corner() -> Point2 {
        Point2::zero()
    }

    open spec fn lower_of(&self, other: &Point2) -> Point2 {
        self.lower(*other)
    }

    open spec fn upper_of(&self, other: &Point2) -> Point2 {
        self.upper(*other)
    }

    open spec fn scale_over(&self, max: &Point2) -> Scale2 {
        Scale2 { x: grid_ratio(self.x, max.x), y: grid_ratio(self.y, max.y) }
    }

    fn origin() -> (p: Point2) {
        Point2::origin()
    }

    fn min(&self, other: &Point2) -> (p: Point2) {
        Point2::min(self, other)
    }

    fn max(&self, other: &Point2) -> (p: Point2) {
        Point2::max(self, other)
    }

    fn grid_scale(&self, max: &Point2) -> (s: Scale2) {
        Scale2 { x: ratio_for(self.x, max.x), y: ratio_for(self.y, max.y) }
    }
}

impl Corner for Point3 {
    type Scale = Scale3;

    open spec fn zero_corner() -> Point3 {
        Point3::zero()
    }

    open spec fn lower_of(&self, other: &Point3) -> Point3 {
        self.lower(*other)
    }

    open spec fn upper_of(&self, other: &Point3) -> Point3 {
        self.upper(*other)
    }

    open spec fn scale_over(&self, max: &Point3) -> Scale3 {
        Scale3 {
            x: grid_ratio(self.x, max.x),
            y: grid_ratio(self.y, max.y),
            z: grid_ratio(self.z, max.z),
        }
    }

    fn origin() -> (p: Point3) {
        Point3::origin()
    }

    fn min(&self, other: &Point3) -> (p: Point3) {
        Point3::min(self, other)
    }

    fn max(&self, other: &Point3) -> (p: Point3) {
        Point3::max(self, other)
    }

    fn grid_scale(&self, max: &Point3) -> (s: Scale3) {
        Scale3 {
            x: ratio_for(self.x, max.x),
            y: ratio_for(self.y, max.y),
            z: ratio_for(self.z, max.z),
        }
    }
}

/// The leaves of a tree array, lowest index first.
pub open spec fn leaves_of<T, C>(nodes: Seq<(C, Option<T>)>) -> Seq<(C, T)> {
    Seq::new(
        ((nodes.len() + 1) / 2) as nat,
        |j: int| (nodes[2 * j].0, nodes[2 * j].1.unwrap()),
    )
}

/// The envelope at the inner node `i` is the merge of its children's.
pub open spec fn joined<T, C: Merge>(nodes: Seq<(C, Option<T>)>, i: int) -> bool {
    nodes[i].0 == nodes[left_child(i as nat) as int].0.envelope(
        &nodes[right_child(i as nat, nodes.len()) as int].0,
    )
}

/// The array holds a tree: payloads at the even indices and nowhere else,
/// and at every odd index the merge of the two children.
pub open spec fn is_tree<T, C: Merge>(nodes: Seq<(C, Option<T>)>) -> bool {
    &&& nodes.len() == 0 || nodes.len() % 2 == 1
    &&& forall|i: int| 0 <= i < nodes.len() ==> ((#[trigger] nodes[i]).1.is_some() <==> i % 2 == 0)
    &&& forall|i: int| 0 <= i < nodes.len() && i % 2 == 1 ==> #[trigger] joined(nodes, i)
}

/// Order of the pairs that the builder sorts: by code, then by index.
pub open spec fn pair_le(a: (u32, u32), b: (u32, u32)) -> bool {
    a.0 < b.0 || (a.0 == b.0 && a.1 <= b.1)
}

/// The Morton code that the builder gives a shape.
pub open spec fn code_of<C: Center<P>, P: Corner + ToMorton<P, P::Scale>>(
    shape: C,
    min: P,
    max: P,
) -> u32 {
    shape.midpoint().morton(&min, &min.scale_over(&max))
}

/// Collects shapes with their payloads, and the box around them all.
pub struct BvhBuilder<T, C, P> {
    max: P,
    min: P,
    data: Vec<(C, T)>,
    scratch: Vec<(C, Option<T>)>,
    reorder: Vec<(u32, u32)>,
}

/// A finished hierarchy.
pub struct Bvh<T, C: Merge> {
    depth: usize,
    data: Vec<(C, Option<T>)>,
    scratch: Vec<(C, T)>,
    reorder: Vec<(u32, u32)>,
}

/// `sort` of std on a vector of pairs of integers. It leaves the same pairs,
/// each as often as before, in ascending order; pairs are ordered by their
/// first component, then by their second.
#[verifier::external_body]
fn sort_pairs(pairs: &mut Vec<(u32, u32)>)
    ensures
        final(pairs)@.to_multiset() == old(pairs)@.to_multiset(),
        forall|i: int, j: int|
            0 <= i < j < final(pairs)@.len() ==> pair_le(final(pairs)@[i], final(pairs)@[j]),
{
    pairs.sort();
}

/// What sorting does to the pairs of codes and indices: the sorted pairs
/// are the old ones in another order, so each index stands in them once.
proof fn lemma_sorted_pairs(inp: Seq<(u32, u32)>, out: Seq<(u32, u32)>)
    requires
        forall|i: int| 0 <= i < inp.len() ==> (#[trigger] inp[i]).1 == i,
        out.to_multiset() == inp.to_multiset(),
    ensures
        out.len() == inp.len(),
        forall|j: int| 0 <= j < out.len() ==> (#[trigger] out[j]).1 < inp.len(),
        forall|j: int| 0 <= j < out.len() ==> #[trigger] out[j] == inp[out[j].1 as int],
        forall|j: int, k: int| 0 <= j < out.len() && 0 <= k < out.len() && j != k ==> out[j] != out[k],
        forall|i: int| 0 <= i < inp.len() ==> out.contains(#[trigger] inp[i]),
{
    broadcast use group_to_multiset_ensures;

    to_multiset_len(inp);
    to_multiset_len(out);

    assert(inp.no_duplicates());
    inp.lemma_multiset_has_no_duplicates();
    out.lemma_multiset_has_no_duplicates_conv();
    assert forall|j: int| 0 <= j < out.len() implies (#[trigger] out[j]).1 < inp.len() && out[j]
        == inp[out[j].1 as int] by {
        assert(out.contains(out[j]));
        assert(inp.to_multiset().count(out[j]) > 0);
        assert(inp.contains(out[j]));
        let i = choose|i: int| 0 <= i < inp.len() && inp[i] == out[j];
        assert(inp[i].1 == i);
    }
    assert forall|i: int| 0 <= i < inp.len() implies out.contains(#[trigger] inp[i]) by {
        assert(inp.contains(inp[i]));
        assert(out.to_multiset().count(inp[i]) > 0);
        assert(out.contains(inp[i]));
    }
}

/// Taking the items at indices that name each position once gives the same
/// items, each as often as before.
proof fn lemma_pick_all<A>(items: Seq<A>, perm: Seq<int>)
    requires
        perm.len() == items.len(),
        forall|j: int| 0 <= j < perm.len() ==> 0 <= #[trigger] perm[j] < items.len(),
        perm.no_duplicates(),
        forall|i: int| 0 <= i < items.len() ==> perm.contains(i),
    ensures
        Seq::new(items.len(), |j: int| items[perm[j]]).to_multiset() == items.to_multiset(),
    decreases items.len(),
{
    broadcast use group_to_multiset_ensures;

    let picks = Seq::new(items.len(), |j: int| items[perm[j]]);
    if items.len() == 0 {
        assert(picks =~= items);
    } else {
        let n = items.len() - 1;
        assert(perm.contains(n));
        let j0 = choose|j: int| 0 <= j < perm.len() && perm[j] == n;
        let rest = items.drop_last();
        let perm1 = perm.remove(j0);
        assert forall|i: int| 0 <= i < rest.len() implies perm1.contains(i) by {
            assert(perm.contains(i));
            let j = choose|j: int| 0 <= j < perm.len() && perm[j] == i;
            if j < j0 {
                assert(perm1[j] == i);
            } else {
                assert(perm1[j - 1] == i);
            }
        }
        lemma_pick_all(rest, perm1);
        let picks1 = Seq::new(rest.len(), |j: int| rest[perm1[j]]);
        assert(picks.remove(j0) =~= picks1);
        to_multiset_remove(picks, j0);
        assert(items =~= rest.push(items[n]));
        to_multiset_build(rest, items[n]);
        assert(picks.to_multiset().count(picks[j0]) > 0) by {
            assert(picks.contains(picks[j0]));
        }
        assert(picks.to_multiset() =~= picks.to_multiset().remove(picks[j0]).insert(picks[j0]));
    }
}

/// The pair of Morton code and index for each shape, in the order given.
fn fill_codes<T, C: Center<P>, P: Corner + ToMorton<P, P::Scale>>(
    data: &Vec<(C, T)>,
    reorder: &mut Vec<(u32, u32)>,
    min: &P,
    max: &P,
)
    requires
        data.len() <= MAX_ITEMS,
    ensures
        final(reorder)@.len() == data@.len(),
        forall|i: int|
            0 <= i < data@.len() ==> #[trigger] final(reorder)@[i] == (
                code_of(data@[i].0, *min, *max),
                i as u32,
            ),
{
    let scale = min.grid_scale(max);
    reorder.clear();
    let mut id: usize = 0;
    while id < data.len()
        invariant
            id <= data.len() <= MAX_ITEMS,
            scale == min.scale_over(max),
            reorder@.len() == id,
            forall|i: int|
                0 <= i < id ==> #[trigger] reorder@[i] == (code_of(data@[i].0, *min, *max), i as u32),
        decreases data.len() - id,
    {
        let code = data[id].0.center().to_morton(min, &scale);
        reorder.push((code, id as u32));
        id += 1;
    }
}

/// Lays the shapes out in the order of the sorted pairs: the leaves at the
/// even indices, a placeholder between each two.
fn lay_out<T: Copy, C: Default + Copy>(
    data: &Vec<(C, T)>,
    reorder: &Vec<(u32, u32)>,
    out: &mut Vec<(C, Option<T>)>,
)
    requires
        1 <= data.len() <= MAX_ITEMS,
        reorder@.len() == data@.len(),
        forall|j: int| 0 <= j < reorder@.len() ==> (#[trigger] reorder@[j]).1 < data@.len(),
    ensures
        final(out)@.len() == 2 * data@.len() - 1,
        forall|i: int|
            0 <= i < final(out)@.len() ==> ((#[trigger] final(out)@[i]).1.is_some() <==> i % 2 == 0),
        forall|j: int|
            0 <= j < data@.len() ==> #[trigger] final(out)@[2 * j] == (
                data@[reorder@[j].1 as int].0,
                Some(data@[reorder@[j].1 as int].1),
            ),
{
    out.clear();
    let total = 2 * data.len() - 1;
    let mut idx: usize = 0;
    while idx < total
        invariant
            idx <= total,
            total == 2 * data.len() - 1,
            1 <= data.len() <= MAX_ITEMS,
            reorder@.len() == data@.len(),
            forall|j: int| 0 <= j < reorder@.len() ==> (#[trigger] reorder@[j]).1 < data@.len(),
            out@.len() == idx,
            forall|i: int| 0 <= i < idx ==> ((#[trigger] out@[i]).1.is_some() <==> i % 2 == 0),
            forall|j: int|
                0 <= j && 2 * j < idx ==> #[trigger] out@[2 * j] == (
                    data@[reorder@[j].1 as int].0,
                    Some(data@[reorder@[j].1 as int].1),
                ),
        decreases total - idx,
    {
        if idx % 2 == 0 {
            let v = reorder[idx / 2].1 as usize;
            let (shape, dat) = data[v];
            out.push((shape, Some(dat)));
        } else {
            out.push((C::default(), None));
        }
        idx += 1;
    }
}

/// Fills in the inner nodes level by level, each with the merge of its
/// children, and returns the height of the root.
fn raise<T: Copy, C: Merge + Copy>(nodes: &mut Vec<(C, Option<T>)>) -> (depth: usize)
    requires
        old(nodes)@.len() % 2 == 1,
        old(nodes)@.len() < 2 * MAX_ITEMS,
        forall|i: int|
            0 <= i < old(nodes)@.len() ==> ((#[trigger] old(nodes)@[i]).1.is_some() <==> i % 2 == 0),
    ensures
        final(nodes)@.len() == old(nodes)@.len(),
        is_tree(final(nodes)@),
        forall|i: int|
            0 <= i < old(nodes)@.len() && i % 2 == 0 ==> #[trigger] final(nodes)@[i] == old(nodes)@[i],
        exp2(depth as nat) <= final(nodes)@.len() < 2 * exp2(depth as nat),
{
    let total = nodes.len();
    let mut step: usize = 1;
    let mut half: usize = 1;
    let mut reach: usize = 2;
    proof {
        assert forall|i: int| 0 <= i < total && i % 2 == 1 implies #[trigger] reach_of(i as nat)
            >= 2 by {
            lemma_reach_node(i as nat);
        }
    }
    while reach <= total
        invariant
            nodes@.len() == total,
            step < reach,
            total % 2 == 1,
            total < 2 * MAX_ITEMS,
            step >= 1,
            half == exp2((step - 1) as nat),
            reach == 2 * half,
            half <= total,
            is_exp2(half as nat),
            forall|i: int| 0 <= i < total ==> ((#[trigger] nodes@[i]).1.is_some() <==> i % 2 == 0),
            forall|i: int| 0 <= i < total && i % 2 == 0 ==> #[trigger] nodes@[i] == old(nodes)@[i],
            forall|i: int|
                0 <= i < total && i % 2 == 1 && reach_of(i as nat) < reach ==> #[trigger] joined(
                    nodes@,
                    i,
                ),
        decreases 2 * total - reach,
    {
        let mut i: usize = reach - 1;
        let ghost mut k: nat = 0;
        proof {
            lemma_node_form(half as nat, 0);
            assert(reach * (2 * 0 + 1) == reach) by (nonlinear_arith);
            assert forall|j: int| 0 <= j < i implies #[trigger] reach_of(j as nat) != reach by {
                lemma_reach_node(j as nat);
            }
        }
        while i < total
            invariant
                nodes@.len() == total,
                total % 2 == 1,
                total < 2 * MAX_ITEMS,
                reach == 2 * half,
                2 <= reach <= total,
                is_exp2(half as nat),
                i + 1 == reach * (2 * k + 1),
                reach_of(i as nat) == reach,
                forall|j: int| 0 <= j < total ==> ((#[trigger] nodes@[j]).1.is_some() <==> j % 2 == 0),
                forall|j: int| 0 <= j < total && j % 2 == 0 ==> #[trigger] nodes@[j] == old(nodes)@[j],
                forall|j: int|
                    0 <= j < total && j % 2 == 1 && reach_of(j as nat) < reach ==> #[trigger] joined(
                        nodes@,
                        j,
                    ),
                forall|j: int|
                    0 <= j < i && j < total && reach_of(j as nat) == reach ==> #[trigger] joined(
                        nodes@,
                        j,
                    ),
            decreases total + 2 * reach - i,
        {
            proof {
                lemma_children(i as nat, total as nat);
            }
            let left = i - half;
            let mut right = i + half;
            let mut hr = half;
            while right >= total
                invariant
                    right == i + hr,
                    hr <= half,
                    i < total,
                    total < 2 * MAX_ITEMS,
                    fit(i as nat, total as nat, hr as nat) == fit(i as nat, total as nat, half as nat),
                decreases hr,
            {
                hr = hr / 2;
                right = i + hr;
            }
            let merged = nodes[left].0.merge(&nodes[right].0);
            let ghost before = nodes@;
            nodes.set(i, (merged, None));
            proof {
                assert(joined(nodes@, i as int));
                assert forall|j: int|
                    0 <= j < total && j % 2 == 1 && j != i && reach_of(j as nat) <= reach && joined(
                        before,
                        j,
                    ) implies #[trigger] joined(nodes@, j) by {
                    lemma_children(j as nat, total as nat);
                }
                lemma_node_form(half as nat, k + 1);
                assert(reach * (2 * k + 3) == reach * (2 * k + 1) + 2 * reach) by (nonlinear_arith);
                assert(2 * half * (2 * (k + 1) + 1) == reach * (2 * k + 3)) by (nonlinear_arith)
                    requires
                        reach == 2 * half,
                ;
                assert forall|j: int|
                    i < j < i + 2 * reach && j < total implies #[trigger] reach_of(j as nat)
                    != reach by {
                    lemma_between_nodes(j as nat, reach as nat, k);
                }
                k = k + 1;
            }
            i += 2 * reach;
        }
        proof {
            assert forall|j: int| 0 <= j < total && j % 2 == 1 && reach_of(j as nat) < 2
                * reach implies #[trigger] joined(nodes@, j) by {
                lemma_reach_node(j as nat);
                lemma_exp2_order(reach_of(j as nat), reach as nat);
            }
        }
        step += 1;
        half = reach;
        reach = reach * 2;
    }
    proof {
        assert forall|i: int| 0 <= i < total && i % 2 == 1 implies #[trigger] joined(nodes@, i) by {
            lemma_reach_node(i as nat);
        }
    }
    step - 1
}

impl<T, C, P> BvhBuilder<T, C, P> {
    /// What has been added, in the order of the calls.
    pub closed spec fn items(&self) -> Seq<(C, T)> {
        self.data@
    }

    /// The low corner of the box around the origin and everything added.
    pub closed spec fn min_corner(&self) -> P {
        self.min
    }

    /// The high corner of the box around the origin and everything added.
    pub closed spec fn max_corner(&self) -> P {
        self.max
    }
}

impl<T, C: Merge> Bvh<T, C> {
    #[verifier::type_invariant]
    spec fn inv(self) -> bool {
        self.wf()
    }

    /// The array of the tree.
    pub closed spec fn nodes(&self) -> Seq<(C, Option<T>)> {
        self.data@
    }

    /// The height of the root.
    pub closed spec fn height(&self) -> nat {
        self.depth as nat
    }

    /// For each leaf, the Morton code that it was sorted by and its place
    /// among the items of the builder.
    pub closed spec fn order(&self) -> Seq<(u32, u32)> {
        self.reorder@
    }

    /// The stored shapes with their payloads, in the order of the array.
    pub open spec fn leaves(&self) -> Seq<(C, T)> {
        leaves_of(self.nodes())
    }

    /// The array holds a tree of at most `MAX_ITEMS` leaves, and the root
    /// stands at `2^height - 1`, the last index of that form in the array.
    pub open spec fn wf(&self) -> bool {
        &&& is_tree(self.nodes())
        &&& self.nodes().len() < 2 * MAX_ITEMS
        &&& self.nodes().len() == 0 ==> self.height() == 0
        &&& self.nodes().len() > 0 ==> exp2(self.height()) <= self.nodes().len() < 2 * exp2(
            self.height(),
        )
    }
}

impl<
    T: Copy,
    C: Merge + Center<P> + Intersects<C> + Default + Max<P> + Min<P> + Copy,
    P: Corner + ToMorton<P, P::Scale>,
> BvhBuilder<T, C, P> {
    /// A builder without items, its box at the origin.
    pub fn new() -> (b: BvhBuilder<T, C, P>)
        ensures
            b.items() == Seq::<(C, T)>::empty(),
            b.min_corner() == P::zero_corner(),
            b.max_corner() == P::zero_corner(),
    {
        let b = BvhBuilder {
            max: P::origin(),
            min: P::origin(),
            data: Vec::new(),
            scratch: Vec::new(),
            reorder: Vec::new(),
        };
        b
    }

    /// Adds a shape with its payload, and grows the box to hold it.
    pub fn add(&mut self, collider: C, data: T)
        ensures
            final(self).items() == old(self).items().push((collider, data)),
            final(self).min_corner() == old(self).min_corner().lower_of(&collider.lower_corner()),
            final(self).max_corner() == old(self).max_corner().upper_of(&collider.upper_corner()),
    {
        let min = collider.min();
        let max = collider.max();
        self.min = self.min.min(&min);
        self.max = self.max.max(&max);
        self.data.push((collider, data));
    }

    /// Builds the hierarchy over the items added. The leaves are the items
    /// sorted by the Morton code of their centers, which is taken in the box
    /// around the origin and all items; items with one code keep the order
    /// in which they were added. Every inner node holds the merge of its
    /// two children.
    pub fn build(self) -> (bvh: Bvh<T, C>)
        requires
            self.items().len() <= MAX_ITEMS,
        ensures
            bvh.wf(),
            bvh.leaves().len() == self.items().len(),
            bvh.order().len() == self.items().len(),
            forall|j: int|
                0 <= j < self.items().len() ==> {
                    let (code, at) = #[trigger] bvh.order()[j];
                    &&& at < self.items().len()
                    &&& code == code_of(self.items()[at as int].0, self.min_corner(), self.max_corner())
                    &&& bvh.leaves()[j] == self.items()[at as int]
                },
            forall|j: int, k: int|
                0 <= j < k < self.items().len() ==> pair_le(bvh.order()[j], bvh.order()[k])
                    && bvh.order()[j].1 != bvh.order()[k].1,
            bvh.leaves().to_multiset() == self.items().to_multiset(),
    {
        let BvhBuilder { max, min, mut data, mut scratch, mut reorder } = self;
        if data.len() == 0 {
            scratch.clear();
            reorder.clear();
            let bvh = Bvh { depth: 0, data: scratch, scratch: data, reorder };
            assert(bvh.leaves() =~= self.items());
            return bvh;
        }
        fill_codes(&data, &mut reorder, &min, &max);
        let ghost unsorted = reorder@;
        sort_pairs(&mut reorder);
        proof {
            lemma_sorted_pairs(unsorted, reorder@);
        }
        lay_out(&data, &reorder, &mut scratch);
        let ghost laid = scratch@;
        let depth = raise(&mut scratch);
        let bvh = Bvh { depth, data: scratch, scratch: data, reorder };
        proof {
            let items = self.items();
            let perm = Seq::new(items.len(), |j: int| reorder@[j].1 as int);
            assert forall|j: int| 0 <= j < items.len() implies #[trigger] bvh.leaves()[j]
                == items[perm[j]] by {
                assert(bvh.nodes()[2 * j] == laid[2 * j]);
            }
            assert forall|i: int| 0 <= i < items.len() implies perm.contains(i) by {
                assert(reorder@.contains(unsorted[i]));
                let j = choose|j: int| 0 <= j < reorder@.len() && reorder@[j] == unsorted[i];
                assert(perm[j] == i);
            }
            assert forall|j: int, k: int| 0 <= j < perm.len() && 0 <= k < perm.len() && j
                != k implies perm[j] != perm[k] by {
                assert(reorder@[j] == unsorted[perm[j]]);
                assert(reorder@[k] == unsorted[perm[k]]);
            }
            lemma_pick_all(items, perm);
            assert(bvh.leaves() =~= Seq::new(items.len(), |j: int| items[perm[j]]));
        }
        bvh
    }
}

/// The leaves that a visit of the subtree at `i` gives out, by their index
/// in the array: those under `i` whose shape and whose ancestors' envelopes
/// up to `i` all overlap the query, the right subtree before the left.
/// `w` is the reach of `i`.
pub open spec fn emit<T, C: Merge + Intersects<C>>(
    nodes: Seq<(C, Option<T>)>,
    query: C,
    i: nat,
    w: nat,
) -> Seq<int>
    decreases w,
{
    if !nodes[i as int].0.overlaps(&query) {
        Seq::empty()
    } else if w <= 1 {
        seq![i as int]
    } else {
        let g = fit(i, nodes.len(), w / 2);
        let right = if g < w {
            emit(nodes, query, i + g, g)
        } else {
            Seq::empty()
        };
        right + emit(nodes, query, (i - w / 2) as nat, w / 2)
    }
}

/// The visit of a whole subtree, its reach taken from the index.
pub open spec fn emit_at<T, C: Merge + Intersects<C>>(
    nodes: Seq<(C, Option<T>)>,
    query: C,
    i: nat,
) -> Seq<int> {
    emit(nodes, query, i, reach_of(i))
}

/// The shapes and payloads of the leaves at some indices.
pub open spec fn entries_at<T, C>(nodes: Seq<(C, Option<T>)>, at: Seq<int>) -> Seq<(C, T)> {
    Seq::new(at.len(), |k: int| (nodes[at[k]].0, nodes[at[k]].1.unwrap()))
}

/// What is still to come once the subtree at `node` is done, when `stack`
/// holds the ancestors of `node`: for each ancestor that was entered through
/// its right child, the left subtree.
spec fn rest<T, C: Merge + Intersects<C>>(
    nodes: Seq<(C, Option<T>)>,
    query: C,
    node: nat,
    stack: Seq<usize>,
) -> Seq<int>
    decreases stack.len(),
{
    if stack.len() == 0 {
        Seq::empty()
    } else {
        let p = stack.last() as nat;
        let above = rest(nodes, query, p, stack.drop_last());
        if node == right_child(p, nodes.len()) {
            emit_at(nodes, query, left_child(p)) + above
        } else {
            above
        }
    }
}

/// What a traversal in the given state still gives out. A leaf that is
/// the whole tree is marked as visited by `last`: after that nothing is
/// to come.
#[verifier::opaque]
spec fn pending<T, C: Merge + Intersects<C>>(
    nodes: Seq<(C, Option<T>)>,
    query: C,
    bt: nat,
    last: nat,
    stack: Seq<usize>,
) -> Seq<int> {
    if nodes.len() == 0 {
        Seq::empty()
    } else if bt % 2 == 0 {
        if stack.len() == 0 && last == bt {
            Seq::empty()
        } else {
            emit(nodes, query, bt, 1) + rest(nodes, query, bt, stack)
        }
    } else if last == right_child(bt, nodes.len()) {
        emit_at(nodes, query, left_child(bt)) + rest(nodes, query, bt, stack)
    } else if last == left_child(bt) {
        rest(nodes, query, bt, stack)
    } else {
        emit_at(nodes, query, bt) + rest(nodes, query, bt, stack)
    }
}

/// A bound on the steps that a visit of the subtree at `i` takes.
spec fn cost(len: nat, i: nat, w: nat) -> nat
    decreases w,
{
    if w <= 1 {
        1
    } else {
        let g = fit(i, len, w / 2);
        let right = if g < w {
            cost(len, i + g, g)
        } else {
            0
        };
        3 + right + cost(len, (i - w / 2) as nat, w / 2)
    }
}

/// A bound on the steps that remain once the subtree at `node` is done.
spec fn climb(len: nat, node: nat, stack: Seq<usize>) -> nat
    decreases stack.len(),
{
    if stack.len() == 0 {
        0
    } else {
        let p = stack.last() as nat;
        let above = climb(len, p, stack.drop_last());
        if node == right_child(p, len) {
            2 + cost(len, left_child(p), reach_of(left_child(p))) + above
        } else {
            1 + above
        }
    }
}

/// A bound on the steps that a traversal in the given state still takes.
#[verifier::opaque]
spec fn work(len: nat, bt: nat, last: nat, stack: Seq<usize>) -> nat {
    if len == 0 {
        0
    } else if bt % 2 == 0 {
        if stack.len() == 0 && last == bt {
            0
        } else {
            1 + climb(len, bt, stack)
        }
    } else if last == right_child(bt, len) {
        2 + cost(len, left_child(bt), reach_of(left_child(bt))) + climb(len, bt, stack)
    } else if last == left_child(bt) {
        1 + climb(len, bt, stack)
    } else {
        cost(len, bt, reach_of(bt)) + climb(len, bt, stack)
    }
}

/// `c` is one of the two children of the inner node `p`.
spec fn is_child(c: nat, p: nat, len: nat) -> bool {
    c == left_child(p) || c == right_child(p, len)
}

/// The stack holds inner nodes, each a child of the one below it, and
/// `bt` is a child of the topmost.
spec fn is_path(stack: Seq<usize>, bt: nat, len: nat) -> bool {
    &&& forall|k: int| 0 <= k < stack.len() ==> (#[trigger] stack[k]) % 2 == 1 && stack[k] < len
    &&& forall|k: int|
        0 < k < stack.len() ==> is_child((#[trigger] stack[k]) as nat, stack[k - 1] as nat, len)
    &&& stack.len() > 0 ==> is_child(bt, stack.last() as nat, len)
}

proof fn lemma_cost_positive(len: nat, i: nat, w: nat)
    ensures
        cost(len, i, w) >= 1,
    decreases w,
{
}

/// A traversal of a hierarchy that gives out the leaves whose shape
/// overlaps a query shape.
pub struct BvhCollisionIter<'a, T, C: Merge> {
    tree: &'a Bvh<T, C>,
    bt: usize,
    last: usize,
    parent: Vec<usize>,
    collider: &'a C,
}

impl<'a, T: Copy, C: Merge + Intersects<C> + Copy> BvhCollisionIter<'a, T, C> {
    /// The hierarchy that is traversed.
    pub closed spec fn tree(&self) -> Bvh<T, C> {
        *self.tree
    }

    /// The shape that is looked for.
    pub closed spec fn query(&self) -> C {
        *self.collider
    }

    /// The traversal stands at a node of the tree, with the ancestors of
    /// that node on its stack.
    pub closed spec fn wf(&self) -> bool {
        let len = self.tree.nodes().len();
        &&& self.tree.wf()
        &&& len > 0 ==> self.bt < len
        &&& is_path(self.parent@, self.bt as nat, len)
    }

    /// The leaves that the traversal has still to give out, by their index
    /// in the array.
    pub closed spec fn upcoming(&self) -> Seq<int> {
        pending(
            self.tree.nodes(),
            *self.collider,
            self.bt as nat,
            self.last as nat,
            self.parent@,
        )
    }

    /// What the calls of `next` will return, one after another.
    pub open spec fn remaining(&self) -> Seq<(C, T)> {
        entries_at(self.tree().nodes(), self.upcoming())
    }

    spec fn steps(&self) -> nat {
        work(self.tree.nodes().len(), self.bt as nat, self.last as nat, self.parent@)
    }

    /// The next leaf whose shape overlaps the query, or `None` when there
    /// is none left. After `None`, every further call returns `None`.
    pub fn next(&mut self) -> (found: Option<(&'a C, &'a T)>)
        requires
            old(self).wf(),
        ensures
            final(self).wf(),
            final(self).tree() == old(self).tree(),
            final(self).query() == old(self).query(),
            match found {
                None => old(self).remaining().len() == 0 && final(self).remaining().len() == 0,
                Some((shape, dat)) => {
                    &&& old(self).remaining().len() > 0
                    &&& (*shape, *dat) == old(self).remaining()[0]
                    &&& final(self).remaining() == old(self).remaining().skip(1)
                },
            },
    {
        let tree: &'a Bvh<T, C> = self.tree;
        let collider: &'a C = self.collider;
        if tree.data.len() == 0 {
            proof {
                reveal(pending);
            }
            return None;
        }
        let ghost len = tree.nodes().len();
        let ghost nodes = tree.nodes();
        loop
            invariant
                self.wf(),
                self.tree == tree,
                self.collider == collider,
                self.tree() == old(self).tree(),
                self.query() == old(self).query(),
                tree.nodes() == nodes,
                nodes.len() == len,
                len > 0,
                self.upcoming() == old(self).upcoming(),
            decreases self.steps(),
        {
            let bt = self.bt;
            let ghost stack = self.parent@;
            let ghost last = self.last as nat;
            let entry: &'a (C, Option<T>) = &tree.data[bt];
            match &entry.1 {
                Some(dat) => {
                    proof {
                        lemma_leaf_step(nodes, *collider, bt as nat, last, stack);
                    }
                    match self.parent.pop() {
                        Some(p) => {
                            self.last = bt;
                            self.bt = p;
                        },
                        None => {
                            if self.last == bt {
                                return None;
                            }
                            self.last = bt;
                        },
                    }
                    if entry.0.intersect(collider) {
                        proof {
                            let after = self.upcoming();
                            assert(old(self).upcoming() == seq![bt as int] + after);
                            assert(self.remaining() =~= old(self).remaining().skip(1));
                        }
                        return Some((&entry.0, dat));
                    }
                },
                None => {
                    proof {
                        lemma_children(bt as nat, len);
                    }
                    let (left, right) = tree.children(bt);
                    if self.last == right {
                        proof {
                            lemma_down_step(nodes, *collider, bt, last, stack, true);
                        }
                        self.parent.push(bt);
                        self.last = bt;
                        self.bt = left;
                    } else if self.last == left || !entry.0.intersect(collider) {
                        proof {
                            lemma_up_step(nodes, *collider, bt as nat, last, stack);
                        }
                        match self.parent.pop() {
                            Some(p) => {
                                self.last = bt;
                                self.bt = p;
                            },
                            None => {
                                return None;
                            },
                        }
                    } else {
                        proof {
                            lemma_down_step(nodes, *collider, bt, last, stack, false);
                        }
                        self.parent.push(bt);
                        self.last = bt;
                        self.bt = right;
                    }
                },
            }
        }
    }
}

/// Leaving a leaf: what is still to come is the leaf, where it overlaps the
/// query, and then what is to come at its parent. A leaf without a parent
/// is the whole tree: once it is left, nothing is to come.
proof fn lemma_leaf_step<T, C: Merge + Intersects<C>>(
    nodes: Seq<(C, Option<T>)>,
    query: C,
    bt: nat,
    last: nat,
    stack: Seq<usize>,
)
    requires
        nodes.len() % 2 == 1,
        bt < nodes.len(),
        bt % 2 == 0,
        is_path(stack, bt, nodes.len()),
    ensures
        stack.len() == 0 && last == bt ==> pending(nodes, query, bt, last, stack) == Seq::<
            int,
        >::empty(),
        stack.len() == 0 && last != bt ==> {
            &&& pending(nodes, query, bt, last, stack) == (if nodes[bt as int].0.overlaps(&query) {
                seq![bt as int]
            } else {
                Seq::empty()
            }) + pending(nodes, query, bt, bt, stack)
            &&& pending(nodes, query, bt, bt, stack) == Seq::<int>::empty()
            &&& work(nodes.len(), bt, bt, stack) < work(nodes.len(), bt, last, stack)
        },
        stack.len() > 0 ==> {
            let p = stack.last() as nat;
            let below = stack.drop_last();
            &&& is_path(below, p, nodes.len())
            &&& pending(nodes, query, bt, last, stack) == (if nodes[bt as int].0.overlaps(&query) {
                seq![bt as int]
            } else {
                Seq::empty()
            }) + pending(nodes, query, p, bt, below)
            &&& work(nodes.len(), p, bt, below) < work(nodes.len(), bt, last, stack)
        },
{
    reveal(pending);
    reveal(work);
    if stack.len() == 0 && last != bt {
        let here = emit(nodes, query, bt, 1);
        assert(here + rest(nodes, query, bt, stack) =~= here + Seq::<int>::empty());
    }
    if stack.len() > 0 {
        let p = stack.last() as nat;
        let below = stack.drop_last();
        lemma_children(p, nodes.len());
        if below.len() > 0 {
            let top = below.len() as int;
            assert(is_child(stack[top] as nat, stack[top - 1] as nat, nodes.len()));
        }
        assert(is_path(below, p, nodes.len()));
    }
}

/// Leaving an inner node for its parent, after its left subtree or because
/// its envelope misses the query: nothing of its subtree is still to come.
proof fn lemma_up_step<T, C: Merge + Intersects<C>>(
    nodes: Seq<(C, Option<T>)>,
    query: C,
    bt: nat,
    last: nat,
    stack: Seq<usize>,
)
    requires
        nodes.len() % 2 == 1,
        bt < nodes.len(),
        bt % 2 == 1,
        is_path(stack, bt, nodes.len()),
        last != right_child(bt, nodes.len()),
        last == left_child(bt) || !nodes[bt as int].0.overlaps(&query),
    ensures
        stack.len() == 0 ==> pending(nodes, query, bt, last, stack) == Seq::<int>::empty(),
        stack.len() > 0 ==> {
            let p = stack.last() as nat;
            let below = stack.drop_last();
            &&& is_path(below, p, nodes.len())
            &&& pending(nodes, query, bt, last, stack) == pending(nodes, query, p, bt, below)
            &&& work(nodes.len(), p, bt, below) < work(nodes.len(), bt, last, stack)
        },
{
    reveal(pending);
    reveal(work);
    lemma_cost_positive(nodes.len(), bt, reach_of(bt));
    lemma_reach_node(bt);
    assert(emit_at(nodes, query, bt) =~= Seq::<int>::empty() || last == left_child(bt));
    if stack.len() > 0 {
        let p = stack.last() as nat;
        let below = stack.drop_last();
        lemma_children(p, nodes.len());
        if below.len() > 0 {
            let top = below.len() as int;
            assert(is_child(stack[top] as nat, stack[top - 1] as nat, nodes.len()));
        }
        assert(is_path(below, p, nodes.len()));
    }
}

/// Going down from an inner node: to its left child after the right
/// subtree, or to its right child on a first visit that overlaps the query.
proof fn lemma_down_step<T, C: Merge + Intersects<C>>(
    nodes: Seq<(C, Option<T>)>,
    query: C,
    bt: usize,
    last: nat,
    stack: Seq<usize>,
    to_left: bool,
)
    requires
        nodes.len() % 2 == 1,
        bt < nodes.len(),
        bt % 2 == 1,
        is_path(stack, bt as nat, nodes.len()),
        to_left ==> last == right_child(bt as nat, nodes.len()),
        !to_left ==> last != right_child(bt as nat, nodes.len()) && last != left_child(bt as nat)
            && nodes[bt as int].0.overlaps(&query),
    ensures
        ({
            let c = if to_left {
                left_child(bt as nat)
            } else {
                right_child(bt as nat, nodes.len())
            };
            let above = stack.push(bt);
            &&& c < nodes.len()
            &&& is_path(above, c, nodes.len())
            &&& pending(nodes, query, bt as nat, last, stack) == pending(nodes, query, c, bt as nat, above)
            &&& work(nodes.len(), c, bt as nat, above) < work(nodes.len(), bt as nat, last, stack)
        }),
{
    reveal(pending);
    reveal(work);
    let len = nodes.len();
    let b = bt as nat;
    let c = if to_left {
        left_child(b)
    } else {
        right_child(b, len)
    };
    let above = stack.push(bt);
    lemma_children(b, len);
    lemma_reach_node(b);
    lemma_reach_node(c);
    assert(above.drop_last() =~= stack);
    assert(above.last() == bt);
    assert(is_path(above, c, len)) by {
        assert forall|k: int| 0 < k < above.len() implies is_child(
            (#[trigger] above[k]) as nat,
            above[k - 1] as nat,
            len,
        ) by {
            if k < stack.len() {
                assert(above[k] == stack[k]);
            }
        }
    }
    if c % 2 == 1 {
        lemma_children(c, len);
    }
    let w = reach_of(b);
    let g = fit(b, len, w / 2);
    assert(emit_at(nodes, query, b) == emit(nodes, query, b, w));
    assert(cost(len, b, w) == 3 + cost(len, b + g, g) + cost(len, (b - w / 2) as nat, w / 2));
    if !to_left {
        assert(emit(nodes, query, b, w) == emit(nodes, query, b + g, g) + emit(
            nodes,
            query,
            (b - w / 2) as nat,
            w / 2,
        ));
        assert(rest(nodes, query, c, above) == emit_at(nodes, query, left_child(b)) + rest(
            nodes,
            query,
            b,
            stack,
        ));
        if c % 2 == 0 {
            assert(emit_at(nodes, query, c) == emit(nodes, query, c, 1));
        }
        assert(pending(nodes, query, c, b, above) == emit_at(nodes, query, c) + rest(
            nodes,
            query,
            c,
            above,
        ));
        assert(pending(nodes, query, b, last, stack) =~= pending(nodes, query, c, b, above));
    } else {
        assert(rest(nodes, query, c, above) == rest(nodes, query, b, stack));
        if c % 2 == 0 {
            assert(emit_at(nodes, query, c) == emit(nodes, query, c, 1));
        }
    }
}

impl<T: Copy, C: Merge + Intersects<C> + Copy> Bvh<T, C> {
    /// The leaves that a query gives out, in the order of the traversal:
    /// the visit of the root. A hierarchy without leaves gives out nothing.
    pub open spec fn hits(&self, query: C) -> Seq<(C, T)> {
        if self.nodes().len() == 0 {
            Seq::empty()
        } else {
            entries_at(self.nodes(), emit_at(self.nodes(), query, root_of(self.height())))
        }
    }

    /// The number of trailing one bits of the index of an inner node.
    pub fn depth(&self, idx: usize) -> (d: usize)
        requires
            idx % 2 == 1,
            idx < 0x8000_0000,
        ensures
            d >= 1,
            exp2(d as nat) == reach_of(idx as nat),
    {
        trailing_ones(idx)
    }

    /// The two children of an inner node.
    pub fn children(&self, idx: usize) -> (c: (usize, usize))
        requires
            idx % 2 == 1,
            idx < self.nodes().len(),
        ensures
            c.0 == left_child(idx as nat),
            c.1 == right_child(idx as nat, self.nodes().len()),
    {
        proof {
            use_type_invariant(self);
        }
        let depth = self.depth(idx);
        proof {
            lemma_reach_node(idx as nat);
            lemma_exp2_monotone((depth - 1) as nat, depth as nat);
            lemma_children(idx as nat, self.nodes().len());
        }
        let mut half = pow2(depth - 1);
        let left = idx - half;
        let mut right = idx + half;
        while right >= self.data.len()
            invariant
                right == idx + half,
                half <= reach_of(idx as nat) / 2,
                idx < self.data@.len() < 2 * MAX_ITEMS,
                fit(idx as nat, self.data@.len(), half as nat) == fit(
                    idx as nat,
                    self.data@.len(),
                    reach_of(idx as nat) / 2,
                ),
            decreases half,
        {
            half = half / 2;
            right = idx + half;
        }
        (left, right)
    }

    /// A traversal for the leaves whose shape overlaps `collider`.
    pub fn collision_iter<'a>(&'a self, collider: &'a C) -> (iter: BvhCollisionIter<'a, T, C>)
        ensures
            iter.wf(),
            iter.tree() == *self,
            iter.query() == *collider,
            iter.remaining() == self.hits(*collider),
    {
        proof {
            use_type_invariant(self);
            reveal(pending);
            lemma_exp2_above(self.depth as nat);
            lemma_exp2_monotone(self.depth as nat, (self.depth + 1) as nat);
            if self.nodes().len() >= 1 {
                lemma_root(self.nodes().len(), self.height());
            }
        }
        let iter = BvhCollisionIter {
            bt: if self.data.len() == 0 {
                0
            } else {
                pow2(self.depth) - 1
            },
            last: if self.data.len() == 0 {
                0
            } else {
                pow2(self.depth + 1)
            },
            parent: Vec::new(),
            tree: self,
            collider,
        };
        proof {
            if self.nodes().len() == 1 {
                let here = emit(self.nodes(), *collider, 0, 1);
                assert(here + Seq::<int>::empty() =~= here);
            }
        }
        iter
    }

    /// Gives the storage back to a new, empty builder.
    pub fn to_builder<P: Corner>(self) -> (b: BvhBuilder<T, C, P>)
        ensures
            b.items() == Seq::<(C, T)>::empty(),
            b.min_corner() == P::zero_corner(),
            b.max_corner() == P::zero_corner(),
    {
        let Bvh { depth, mut data, mut scratch, mut reorder } = self;
        data.clear();
        scratch.clear();
        reorder.clear();
        BvhBuilder { max: P::origin(), min: P::origin(), data: scratch, scratch: data, reorder }
    }
}

/// The root stands over the whole array. In a tree with one entry it is
/// that entry; in a larger tree it is an inner node, and the marker
/// `2^(height + 1)` lies beyond the array.
proof fn lemma_root(len: nat, height: nat)
    requires
        len >= 1,
        len % 2 == 1,
        exp2(height) <= len < 2 * exp2(height),
    ensures
        root_of(height) < len,
        reach_of(root_of(height)) == exp2(height),
        root_of(height) + 1 == exp2(height),
        len == 1 ==> height == 0 && root_of(height) == 0,
        len > 1 ==> {
            &&& height >= 1
            &&& root_of(height) % 2 == 1
            &&& root_of(height) + 1 < len
            &&& 2 * exp2(height) > right_child(root_of(height), len)
            &&& 2 * exp2(height) > left_child(root_of(height))
        },
{
    assert(exp2(0) == 1);
    if height > 0 {
        lemma_exp2_monotone(1, height);
        assert(exp2(1) == 2);
    }
    lemma_exp2_is_exp2(height);
    assert(exp2(height) * 1 == exp2(height)) by (nonlinear_arith);
    lemma_reach_form(root_of(height), exp2(height), 1);
    lemma_reach_node(root_of(height));
    if len > 1 {
        lemma_children(root_of(height), len);
    }
}

/// Those of the first `n` leaves whose shape overlaps the query, the last
/// of them first.
pub open spec fn overlapping<T, C: Intersects<C>>(leaves: Seq<(C, T)>, query: C, n: nat) -> Seq<
    (C, T),
>
    decreases n,
{
    if n == 0 {
        Seq::empty()
    } else {
        let head = if leaves[n - 1].0.overlaps(&query) {
            seq![leaves[n - 1]]
        } else {
            Seq::empty()
        };
        head + overlapping(leaves, query, (n - 1) as nat)
    }
}

/// The even indices from `lo` up to `hi` at which the shape overlaps the
/// query, the highest first.
spec fn select<T, C: Intersects<C>>(nodes: Seq<(C, Option<T>)>, query: C, lo: int, hi: int) -> Seq<
    int,
>
    decreases hi - lo,
{
    if hi <= lo {
        Seq::empty()
    } else {
        let head = if (hi - 1) % 2 == 0 && nodes[hi - 1].0.overlaps(&query) {
            seq![hi - 1]
        } else {
            Seq::empty()
        };
        head + select(nodes, query, lo, hi - 1)
    }
}

proof fn lemma_select_split<T, C: Intersects<C>>(
    nodes: Seq<(C, Option<T>)>,
    query: C,
    lo: int,
    mid: int,
    hi: int,
)
    requires
        lo <= mid <= hi,
    ensures
        select(nodes, query, lo, hi) == select(nodes, query, mid, hi) + select(nodes, query, lo, mid),
    decreases hi - mid,
{
    if mid < hi {
        lemma_select_split(nodes, query, lo, mid, hi - 1);
        let head = if (hi - 1) % 2 == 0 && nodes[hi - 1].0.overlaps(&query) {
            seq![hi - 1]
        } else {
            Seq::empty()
        };
        assert(head + (select(nodes, query, mid, hi - 1) + select(nodes, query, lo, mid)) =~= (head
            + select(nodes, query, mid, hi - 1)) + select(nodes, query, lo, mid));
    } else {
        assert(select(nodes, query, mid, hi) + select(nodes, query, lo, mid) =~= select(
            nodes,
            query,
            lo,
            mid,
        ));
    }
}

/// The end of the part of the array that the node `i` of reach `w` stands
/// over.
spec fn span_end(i: nat, w: nat, len: nat) -> int {
    if i + w <= len {
        (i + w) as int
    } else {
        len as int
    }
}

/// The visit of a subtree gives out the overlapping leaves of the part of
/// the array that the subtree stands over, and where the envelope of its
/// root misses the query, none of its leaves overlaps it.
proof fn lemma_emit_span<T, C: Merge + Intersects<C>>(
    nodes: Seq<(C, Option<T>)>,
    query: C,
    i: nat,
    w: nat,
)
    requires
        is_tree(nodes),
        merge_covers::<C>(),
        i < nodes.len(),
        reach_of(i) == w,
    ensures
        emit(nodes, query, i, w) == select(nodes, query, i + 1 - w, span_end(i, w, nodes.len())),
        select(nodes, query, i + 1 - w, span_end(i, w, nodes.len())).len() > 0
            ==> nodes[i as int].0.overlaps(&query),
    decreases w,
{
    let len = nodes.len();
    lemma_reach_node(i);
    if w <= 1 {
        assert(select(nodes, query, i as int, i as int) =~= Seq::<int>::empty());
        assert(select(nodes, query, i as int, i as int + 1) =~= if nodes[i as int].0.overlaps(&query) {
            seq![i as int]
        } else {
            Seq::empty()
        });
    } else {
        lemma_children(i, len);
        let l = left_child(i);
        let r = right_child(i, len);
        let g = (r - i) as nat;
        lemma_emit_span(nodes, query, l, w / 2);
        lemma_emit_span(nodes, query, r, g);
        let lo = i + 1 - w;
        let hi = span_end(i, w, len);
        assert(span_end(l, w / 2, len) == i);
        assert(span_end(r, g, len) == hi);
        lemma_select_split(nodes, query, lo, i as int, hi);
        lemma_select_split(nodes, query, i as int, i as int + 1, hi);
        assert(select(nodes, query, i as int, i as int) =~= Seq::<int>::empty());
        assert(select(nodes, query, i as int, i as int + 1) =~= Seq::<int>::empty());
        assert(select(nodes, query, lo, hi) =~= select(nodes, query, i as int + 1, hi) + select(
            nodes,
            query,
            lo,
            i as int,
        ));
        assert(joined(nodes, i as int));
        if !nodes[i as int].0.overlaps(&query) {
            assert(!nodes[l as int].0.overlaps(&query));
            assert(!nodes[r as int].0.overlaps(&query));
        }
    }
}

/// The selected indices of a whole array name the overlapping leaves.
proof fn lemma_select_leaves<T, C: Intersects<C>>(nodes: Seq<(C, Option<T>)>, query: C, n: nat)
    requires
        2 * n <= nodes.len() + 1,
    ensures
        n > 0 ==> entries_at(nodes, select(nodes, query, 0, 2 * n - 1)) == overlapping(
            leaves_of(nodes),
            query,
            n,
        ),
        n == 0 ==> overlapping(leaves_of(nodes), query, n) == Seq::<(C, T)>::empty(),
    decreases n,
{
    if n == 1 {
        assert(select(nodes, query, 0, 0) =~= Seq::<int>::empty());
        assert(overlapping(leaves_of(nodes), query, 0) =~= Seq::<(C, T)>::empty());
        assert(entries_at(nodes, select(nodes, query, 0, 1)) =~= overlapping(
            leaves_of(nodes),
            query,
            1,
        ));
    } else if n > 1 {
        lemma_select_leaves(nodes, query, (n - 1) as nat);
        let top = 2 * n - 2;
        let head = if nodes[top].0.overlaps(&query) {
            seq![top]
        } else {
            Seq::empty()
        };
        assert(select(nodes, query, 0, top) =~= select(nodes, query, 0, top - 1));
        assert(select(nodes, query, 0, top + 1) == head + select(nodes, query, 0, top - 1));
        assert(entries_at(nodes, head + select(nodes, query, 0, top - 1)) =~= entries_at(nodes, head)
            + entries_at(nodes, select(nodes, query, 0, top - 1)));
        assert(entries_at(nodes, head) =~= if leaves_of(nodes)[n - 1].0.overlaps(&query) {
            seq![leaves_of(nodes)[n - 1]]
        } else {
            Seq::empty()
        });
    }
}

/// A query gives out every leaf whose shape overlaps the query, once, the
/// last leaf first, and nothing else, if merging the shapes loses no
/// overlap.
pub proof fn lemma_hits_complete<T: Copy, C: Merge + Intersects<C> + Copy>(bvh: Bvh<T, C>, query: C)
    requires
        bvh.wf(),
        merge_covers::<C>(),
    ensures
        bvh.hits(query) == overlapping(bvh.leaves(), query, bvh.leaves().len()),
{
    let nodes = bvh.nodes();
    let n = bvh.leaves().len();
    lemma_select_leaves(nodes, query, n);
    if n >= 1 {
        lemma_root(nodes.len(), bvh.height());
        let root = root_of(bvh.height());
        lemma_emit_span(nodes, query, root, exp2(bvh.height()));
    }
}

/// The overlapping leaves are the leaves that overlap, each as often as it
/// is among the leaves.
pub proof fn lemma_overlapping_multiset<T, C: Intersects<C>>(leaves: Seq<(C, T)>, query: C, n: nat)
    requires
        n <= leaves.len(),
    ensures
        overlapping(leaves, query, n).to_multiset() == leaves.take(n as int).to_multiset().filter(
            |e: (C, T)| e.0.overlaps(&query),
        ),
    decreases n,
{
    broadcast use group_to_multiset_ensures;
    broadcast use vstd::multiset::group_multiset_axioms;

    let keep = |e: (C, T)| e.0.overlaps(&query);
    if n == 0 {
        assert(leaves.take(0) =~= Seq::<(C, T)>::empty());
        assert(overlapping(leaves, query, 0).to_multiset() =~= leaves.take(0).to_multiset().filter(
            keep,
        ));
    } else {
        let m = (n - 1) as nat;
        lemma_overlapping_multiset(leaves, query, m);
        let last = leaves[n - 1];
        assert(leaves.take(n as int) =~= leaves.take(m as int).push(last));
        let tail = overlapping(leaves, query, m);
        if keep(last) {
            assert(overlapping(leaves, query, n) =~= seq![last] + tail);
            assert(seq![last] + tail =~= tail.insert(0, last));
            to_multiset_insert(tail, 0, last);
        } else {
            assert(overlapping(leaves, query, n) =~= tail);
        }
        assert(overlapping(leaves, query, n).to_multiset() =~= leaves.take(n as int).to_multiset().filter(
            keep,
        ));
    }
}

/// Completeness of a query: on a hierarchy built from `items`, a query
/// gives out exactly the items whose shape overlaps the query shape, each
/// as often as it was added, if merging the shapes loses no overlap.
pub proof fn lemma_query_complete<T: Copy, C: Merge + Intersects<C> + Copy>(
    items: Seq<(C, T)>,
    bvh: Bvh<T, C>,
    query: C,
)
    requires
        bvh.wf(),
        merge_covers::<C>(),
        bvh.leaves().to_multiset() == items.to_multiset(),
    ensures
        bvh.hits(query).to_multiset() == items.to_multiset().filter(
            |e: (C, T)| e.0.overlaps(&query),
        ),
{
    let leaves = bvh.leaves();
    to_multiset_len(leaves);
    to_multiset_len(items);
    lemma_hits_complete(bvh, query);
    lemma_overlapping_multiset(leaves, query, leaves.len());
    assert(leaves.take(leaves.len() as int) =~= leaves);
}

/// A hierarchy rebuilt from the same items answers a query with the same
/// items, each as often: the order in which they were added, and the
/// builder that they went through, do not matter.
pub proof fn lemma_rebuild_same_hits<T: Copy, C: Merge + Intersects<C> + Copy>(
    first: Bvh<T, C>,
    second: Bvh<T, C>,
    query: C,
)
    requires
        first.wf(),
        second.wf(),
        merge_covers::<C>(),
        first.leaves().to_multiset() == second.leaves().to_multiset(),
    ensures
        first.hits(query).to_multiset() == second.hits(query).to_multiset(),
{
    to_multiset_len(first.leaves());
    to_multiset_len(second.leaves());
    lemma_query_complete(first.leaves(), first, query);
    lemma_query_complete(first.leaves(), second, query);
}

} // verus!
