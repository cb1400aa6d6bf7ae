//! An octree of linked nodes around the origin. A node that holds more
//! than it should divides into eight children behind a shared pointer;
//! copies of a tree share their branches until one of them is changed.

use std::sync::Arc;
use vstd::prelude::*;
use vstd::std_specs::cmp::PartialEqSpec;
use crate::octant::{
    centre_of, cube_bounded, first_equal, octant_centre, overlaps_all, reached, without_first,
};
use crate::point::{half, half_i32, Point3};
use crate::{
    lemma_located_reaches, located, octants, some_octant, CheckRange2, CheckRange3, Intersects,
};

verus! {

/// Eight nodes, one for each octant around a point.
pub struct Branch<K, V> {
    children: [Node<K, V>; 8],
}

/// A node of the tree.
pub enum Node<K, V> {
    /// Nothing.
    Empty,
    /// One key with its value.
    Data(K, V),
    /// Several keys with their values.
    Collide(Vec<(K, V)>),
    /// Eight children, shared with the copies of the tree.
    Child(Arc<Branch<K, V>>),
}

/// A node with everything below it, as a mathematical value. A branch has
/// eight children: bit 2 of a child's index is set for the part above the
/// center in x, bit 1 in y, bit 0 in z.
pub enum Tree<K, V> {
    Empty,
    Data(K, V),
    Collide(Seq<(K, V)>),
    Child(Seq<Tree<K, V>>),
}

/// Eight empty trees.
pub open spec fn empty_kids<K, V>() -> Seq<Tree<K, V>> {
    Seq::new(8, |i: int| Tree::Empty)
}

/// The tree after a key was put into it. `depth` is the number of times
/// that the node may still divide.
///
/// An empty node takes the key. A node with one key takes the second key
/// beside it where the two overlap, or where it may not divide; else it
/// divides, and both keys go to the children. A node with several keys
/// takes one more where the new key overlaps them all, or where it may not
/// divide; else it divides, and all go to the children. A branch hands the
/// key to its children.
pub open spec fn tree_insert<K: CheckRange3 + Intersects<K>, V>(
    tree: Tree<K, V>,
    centre: Point3,
    scale: i32,
    depth: nat,
    key: K,
    value: V,
) -> Tree<K, V>
    decreases depth, 0nat, 0nat,
{
    match tree {
        Tree::Empty => Tree::Data(key, value),
        Tree::Data(k, v) => if depth == 0 || k.overlaps(&key) {
            Tree::Collide(seq![(k, v), (key, value)])
        } else {
            let d = (depth - 1) as nat;
            Tree::Child(
                kids_insert(
                    kids_insert(empty_kids(), centre, scale, d, k, v, 0),
                    centre,
                    scale,
                    d,
                    key,
                    value,
                    0,
                ),
            )
        },
        Tree::Collide(list) => if depth == 0 || overlaps_all(key, list) {
            Tree::Collide(list.push((key, value)))
        } else {
            let d = (depth - 1) as nat;
            Tree::Child(
                kids_insert(
                    kids_insert_all(empty_kids(), centre, scale, d, list, 0),
                    centre,
                    scale,
                    d,
                    key,
                    value,
                    0,
                ),
            )
        },
        Tree::Child(kids) => if depth == 0 {
            tree
        } else {
            Tree::Child(kids_insert(kids, centre, scale, (depth - 1) as nat, key, value, 0))
        },
    }
}

/// The children of a branch after a key was put into the children `from`,
/// `from + 1`, ..., as far as the key reaches their octants.
pub open spec fn kids_insert<K: CheckRange3 + Intersects<K>, V>(
    kids: Seq<Tree<K, V>>,
    centre: Point3,
    scale: i32,
    depth: nat,
    key: K,
    value: V,
    from: nat,
) -> Seq<Tree<K, V>>
    decreases depth, 1nat, 8 - from,
{
    if from >= 8 {
        kids
    } else if !reached(key, centre)[from as int] {
        kids_insert(kids, centre, scale, depth, key, value, from + 1)
    } else {
        kids_insert(
            kids.update(
                from as int,
                tree_insert(
                    kids[from as int],
                    octant_centre(centre, scale, from),
                    half(scale as int) as i32,
                    depth,
                    key,
                    value,
                ),
            ),
            centre,
            scale,
            depth,
            key,
            value,
            from + 1,
        )
    }
}

/// The children of a branch after the entries `from`, `from + 1`, ... of a
/// list were put into them, one after another.
pub open spec fn kids_insert_all<K: CheckRange3 + Intersects<K>, V>(
    kids: Seq<Tree<K, V>>,
    centre: Point3,
    scale: i32,
    depth: nat,
    list: Seq<(K, V)>,
    from: nat,
) -> Seq<Tree<K, V>>
    decreases depth, 2nat, list.len() - from,
{
    if from >= list.len() {
        kids
    } else {
        kids_insert_all(
            kids_insert(kids, centre, scale, depth, list[from as int].0, list[from as int].1, 0),
            centre,
            scale,
            depth,
            list,
            from + 1,
        )
    }
}

/// The tree after a key was taken out of it: a node with one key becomes
/// empty, whatever its key; a node with several keys loses the first entry
/// with that key; a branch has the key taken out of the children whose
/// octants the key reaches.
pub open spec fn tree_remove<K: CheckRange3 + PartialEq, V>(
    tree: Tree<K, V>,
    centre: Point3,
    scale: i32,
    depth: nat,
    key: K,
) -> Tree<K, V>
    decreases depth, 0nat, 0nat,
{
    match tree {
        Tree::Empty => Tree::Empty,
        Tree::Data(k, v) => Tree::Empty,
        Tree::Collide(list) => Tree::Collide(without_first(list, key)),
        Tree::Child(kids) => if depth == 0 {
            tree
        } else {
            Tree::Child(kids_remove(kids, centre, scale, (depth - 1) as nat, key, 0))
        },
    }
}

/// The children of a branch after a key was taken out of the children
/// `from`, `from + 1`, ..., as far as the key reaches their octants.
pub open spec fn kids_remove<K: CheckRange3 + PartialEq, V>(
    kids: Seq<Tree<K, V>>,
    centre: Point3,
    scale: i32,
    depth: nat,
    key: K,
    from: nat,
) -> Seq<Tree<K, V>>
    decreases depth, 1nat, 8 - from,
{
    if from >= 8 {
        kids
    } else if !reached(key, centre)[from as int] {
        kids_remove(kids, centre, scale, depth, key, from + 1)
    } else {
        kids_remove(
            kids.update(
                from as int,
                tree_remove(
                    kids[from as int],
                    octant_centre(centre, scale, from),
                    half(scale as int) as i32,
                    depth,
                    key,
                ),
            ),
            centre,
            scale,
            depth,
            key,
            from + 1,
        )
    }
}

/// What a query shape finds in a tree: everything held by the nodes whose
/// octants the shape reaches, whether or not the keys themselves overlap
/// the shape.
pub open spec fn tree_query<K, V, Q: CheckRange3>(
    tree: Tree<K, V>,
    centre: Point3,
    scale: i32,
    depth: nat,
    shape: Q,
) -> Seq<(K, V)>
    decreases depth, 0nat, 0nat,
{
    match tree {
        Tree::Empty => Seq::empty(),
        Tree::Data(k, v) => seq![(k, v)],
        Tree::Collide(list) => list,
        Tree::Child(kids) => if depth == 0 {
            Seq::empty()
        } else {
            kids_query(kids, centre, scale, (depth - 1) as nat, shape, 0)
        },
    }
}

/// What a query shape finds in the children `from`, `from + 1`, ... of a
/// branch, as far as it reaches their octants, child by child.
pub open spec fn kids_query<K, V, Q: CheckRange3>(
    kids: Seq<Tree<K, V>>,
    centre: Point3,
    scale: i32,
    depth: nat,
    shape: Q,
    from: nat,
) -> Seq<(K, V)>
    decreases depth, 1nat, 8 - from,
{
    if from >= 8 {
        Seq::empty()
    } else if !reached(shape, centre)[from as int] {
        kids_query(kids, centre, scale, depth, shape, from + 1)
    } else {
        tree_query(
            kids[from as int],
            octant_centre(centre, scale, from),
            half(scale as int) as i32,
            depth,
            shape,
        ) + kids_query(kids, centre, scale, depth, shape, from + 1)
    }
}

impl<K, V> Node<K, V> {
    /// The node with what is below it, as far as `depth` branches down.
    pub closed spec fn model(&self, depth: nat) -> Tree<K, V>
        decreases depth,
    {
        match self {
            Node::Empty => Tree::Empty,
            Node::Data(k, v) => Tree::Data(*k, *v),
            Node::Collide(list) => Tree::Collide(list@),
            Node::Child(branch) => if depth == 0 {
                Tree::Empty
            } else {
                Tree::Child(Seq::new(8, |i: int| branch.children@[i].model((depth - 1) as nat)))
            },
        }
    }

    /// No path through the node leads down more than `depth` branches.
    pub closed spec fn wf(&self, depth: nat) -> bool
        decreases depth,
    {
        match self {
            Node::Child(branch) => depth > 0 && forall|i: int|
                0 <= i < 8 ==> (#[trigger] branch.children@[i]).wf((depth - 1) as nat),
            _ => true,
        }
    }
}

impl<K, V> Branch<K, V> {
    /// The eight children, as far as `depth` branches down.
    pub closed spec fn kids(&self, depth: nat) -> Seq<Tree<K, V>> {
        Seq::new(8, |i: int| self.children@[i].model(depth))
    }

    /// No path through a child leads down more than `depth` branches.
    pub closed spec fn wf(&self, depth: nat) -> bool {
        forall|i: int| 0 <= i < 8 ==> (#[trigger] self.children@[i]).wf(depth)
    }
}

/// `Arc::try_unwrap` of std: the value behind the pointer where no other
/// pointer shares it, else the pointer back.
#[verifier::external_body]
fn try_unwrap<K, V>(shared: Arc<Branch<K, V>>) -> (r: Result<Branch<K, V>, Arc<Branch<K, V>>>)
    ensures
        match r {
            Ok(owned) => owned == *shared,
            Err(back) => back == shared,
        },
{
    Arc::try_unwrap(shared)
}

/// `clone` of std on an `Arc`: one more pointer to the same value.
#[verifier::external_body]
fn share<K, V>(shared: &Arc<Branch<K, V>>) -> (r: Arc<Branch<K, V>>)
    ensures
        r == *shared,
{
    Arc::clone(shared)
}

/// The octants of a cube that a shape reaches, each with its center: what
/// a branch does for a shape, it does in these octants, in this order.
pub open spec fn dispatch<Q: CheckRange3>(shape: Q, centre: Point3, scale: i32) -> Seq<
    Option<Point3>,
> {
    Seq::new(
        8,
        |i: int|
            if reached(shape, centre)[i] {
                Some(octant_centre(centre, scale, i as nat))
            } else {
                None
            },
    )
}

/// The octants of the cube of half side `scale` around `c` that a shape
/// reaches, each with its center.
fn action<Q: CheckRange3>(c: Point3, scale: i32, key: &Q) -> (steps: [Option<Point3>; 8])
    requires
        cube_bounded(c, scale),
    ensures
        steps@ == dispatch(*key, c, scale),
        forall|i: int|
            0 <= i < 8 ==> cube_bounded(
                #[trigger] octant_centre(c, scale, i as nat),
                half(scale as int) as i32,
            ),
{
    let touched = key.check3(&c, scale);
    let at = [
        centre_of(c, scale, 0),
        centre_of(c, scale, 1),
        centre_of(c, scale, 2),
        centre_of(c, scale, 3),
        centre_of(c, scale, 4),
        centre_of(c, scale, 5),
        centre_of(c, scale, 6),
        centre_of(c, scale, 7),
    ];
    let steps = [
        if touched[0] { Some(at[0]) } else { None },
        if touched[1] { Some(at[1]) } else { None },
        if touched[2] { Some(at[2]) } else { None },
        if touched[3] { Some(at[3]) } else { None },
        if touched[4] { Some(at[4]) } else { None },
        if touched[5] { Some(at[5]) } else { None },
        if touched[6] { Some(at[6]) } else { None },
        if touched[7] { Some(at[7]) } else { None },
    ];
    assert(steps@ =~= dispatch(*key, c, scale));
    assert forall|i: int| 0 <= i < 8 implies cube_bounded(
        #[trigger] octant_centre(c, scale, i as nat),
        half(scale as int) as i32,
    ) by {
        assert(at@[i] == octant_centre(c, scale, i as nat));
    }
    steps
}

impl<K: Copy, V: Copy> Clone for Node<K, V> {
    /// A copy of the node that shares the branches below it.
    fn clone(&self) -> (copy: Node<K, V>)
        ensures
            forall|d: nat| copy.model(d) == self.model(d),
            forall|d: nat| copy.wf(d) == self.wf(d),
    {
        let copy = match self {
            Node::Empty => Node::Empty,
            Node::Data(k, v) => Node::Data(*k, *v),
            Node::Collide(list) => {
                let mut copied: Vec<(K, V)> = Vec::new();
                let mut i: usize = 0;
                while i < list.len()
                    invariant
                        i <= list.len(),
                        copied@ == list@.take(i as int),
                    decreases list.len() - i,
                {
                    copied.push(list[i]);
                    assert(list@.take(i + 1) =~= list@.take(i as int).push(list@[i as int]));
                    i += 1;
                }
                assert(list@.take(list@.len() as int) =~= list@);
                Node::Collide(copied)
            },
            Node::Child(branch) => Node::Child(share(branch)),
        };
        assert forall|d: nat| copy.model(d) == self.model(d) && copy.wf(d) == self.wf(d) by {
            reveal_with_fuel(Node::model, 2);
            reveal_with_fuel(Node::wf, 2);
        }
        copy
    }
}

impl<K: Copy, V: Copy> Clone for Branch<K, V> {
    /// A copy of the eight children that shares the branches below them.
    fn clone(&self) -> (copy: Branch<K, V>)
        ensures
            forall|d: nat| copy.kids(d) == self.kids(d),
            forall|d: nat| copy.wf(d) == self.wf(d),
    {
        let copy = Branch {
            children: [
                self.children[0].clone(),
                self.children[1].clone(),
                self.children[2].clone(),
                self.children[3].clone(),
                self.children[4].clone(),
                self.children[5].clone(),
                self.children[6].clone(),
                self.children[7].clone(),
            ],
        };
        assert forall|d: nat| copy.kids(d) == self.kids(d) && copy.wf(d) == self.wf(d) by {
            assert(copy.kids(d) =~= self.kids(d));
        }
        copy
    }
}

impl<K: Copy + CheckRange3 + Intersects<K> + PartialEq, V: Copy> Branch<K, V> {
    /// Eight empty children.
    pub fn new() -> (b: Branch<K, V>)
        ensures
            forall|d: nat| b.wf(d),
            forall|d: nat| b.kids(d) == empty_kids::<K, V>(),
    {
        let b = Branch {
            children: [
                Node::Empty,
                Node::Empty,
                Node::Empty,
                Node::Empty,
                Node::Empty,
                Node::Empty,
                Node::Empty,
                Node::Empty,
            ],
        };
        assert forall|d: nat| b.wf(d) && b.kids(d) == empty_kids::<K, V>() by {
            reveal_with_fuel(Node::model, 2);
            reveal_with_fuel(Node::wf, 2);
            assert(b.kids(d) =~= empty_kids::<K, V>());
        }
        b
    }

    /// How many children hold one key, and how many hold several keys or
    /// children of their own.
    pub fn count(&self) -> (n: (usize, usize))
        ensures
            n.0 == tally(self.kids(1), 8).0,
            n.1 == tally(self.kids(1), 8).1,
    {
        let mut data: usize = 0;
        let mut child: usize = 0;
        let mut i: usize = 0;
        while i < 8
            invariant
                i <= 8,
                data == tally(self.kids(1), i as nat).0,
                child == tally(self.kids(1), i as nat).1,
                data + child <= i,
            decreases 8 - i,
        {
            proof {
                reveal_with_fuel(Node::model, 2);
            }
            match &self.children[i] {
                Node::Data(_, _) => {
                    data += 1;
                },
                Node::Child(_) => {
                    child += 1;
                },
                Node::Collide(_) => {
                    child += 1;
                },
                Node::Empty => {},
            }
            i += 1;
        }
        (data, child)
    }

    /// Puts a key into the children whose octants it reaches.
    fn insert(&mut self, c: Point3, scale: i32, depth: usize, key: &K, value: &V)
        requires
            old(self).wf(depth as nat),
            cube_bounded(c, scale),
        ensures
            final(self).wf(depth as nat),
            final(self).kids(depth as nat) == kids_insert(
                old(self).kids(depth as nat),
                c,
                scale,
                depth as nat,
                *key,
                *value,
                0,
            ),
        decreases depth, 1nat,
    {
        let steps = action(c, scale, key);
        let hscale = half_i32(scale);
        let mut idx: usize = 0;
        while idx < 8
            invariant
                idx <= 8,
                self.wf(depth as nat),
                cube_bounded(c, scale),
                hscale == half(scale as int),
                steps@ == dispatch(*key, c, scale),
                kids_insert(self.kids(depth as nat), c, scale, depth as nat, *key, *value, idx as nat)
                    == kids_insert(old(self).kids(depth as nat), c, scale, depth as nat, *key, *value, 0),
            decreases 8 - idx,
        {
            if let Some(centre) = steps[idx] {
                let ghost before = self.kids(depth as nat);
                let ghost prior = *self;
                assert(cube_bounded(octant_centre(c, scale, idx as nat), hscale));
                self.children[idx].insert(centre, hscale, depth, key, value);
                proof {
                    assert forall|i: int| 0 <= i < 8 implies (#[trigger] self.children@[i]).wf(
                        depth as nat,
                    ) by {
                        if i != idx {
                            assert(self.children@[i] == prior.children@[i]);
                        }
                    }
                    assert(self.kids(depth as nat) =~= before.update(
                        idx as int,
                        tree_insert(before[idx as int], centre, hscale, depth as nat, *key, *value),
                    ));
                }
            }
            idx += 1;
        }
    }

    /// Takes a key out of the children whose octants it reaches.
    fn remove(&mut self, c: Point3, scale: i32, depth: usize, key: &K)
        requires
            old(self).wf(depth as nat),
            cube_bounded(c, scale),
        ensures
            final(self).wf(depth as nat),
            K::obeys_eq_spec() ==> final(self).kids(depth as nat) == kids_remove(
                old(self).kids(depth as nat),
                c,
                scale,
                depth as nat,
                *key,
                0,
            ),
        decreases depth, 1nat,
    {
        let steps = action(c, scale, key);
        let hscale = half_i32(scale);
        let mut idx: usize = 0;
        while idx < 8
            invariant
                idx <= 8,
                self.wf(depth as nat),
                cube_bounded(c, scale),
                hscale == half(scale as int),
                steps@ == dispatch(*key, c, scale),
                K::obeys_eq_spec() ==> kids_remove(
                    self.kids(depth as nat),
                    c,
                    scale,
                    depth as nat,
                    *key,
                    idx as nat,
                ) == kids_remove(old(self).kids(depth as nat), c, scale, depth as nat, *key, 0),
            decreases 8 - idx,
        {
            if let Some(centre) = steps[idx] {
                let ghost before = self.kids(depth as nat);
                let ghost prior = *self;
                assert(cube_bounded(octant_centre(c, scale, idx as nat), hscale));
                self.children[idx].remove(centre, hscale, depth, key);
                proof {
                    assert forall|i: int| 0 <= i < 8 implies (#[trigger] self.children@[i]).wf(
                        depth as nat,
                    ) by {
                        if i != idx {
                            assert(self.children@[i] == prior.children@[i]);
                        }
                    }
                    if K::obeys_eq_spec() {
                        assert(self.kids(depth as nat) =~= before.update(
                            idx as int,
                            tree_remove(before[idx as int], centre, hscale, depth as nat, *key),
                        ));
                    }
                }
            }
            idx += 1;
        }
    }

    /// Adds to `found` what the children hold whose octants a shape reaches.
    fn quary<Q: CheckRange3>(
        &self,
        c: Point3,
        scale: i32,
        depth: usize,
        key: &Q,
        found: &mut Vec<(K, V)>,
    )
        requires
            self.wf(depth as nat),
            cube_bounded(c, scale),
        ensures
            final(found)@ == old(found)@ + kids_query(
                self.kids(depth as nat),
                c,
                scale,
                depth as nat,
                *key,
                0,
            ),
        decreases depth, 1nat,
    {
        let steps = action(c, scale, key);
        let hscale = half_i32(scale);
        let ghost kids = self.kids(depth as nat);
        let mut idx: usize = 0;
        while idx < 8
            invariant
                idx <= 8,
                self.wf(depth as nat),
                cube_bounded(c, scale),
                hscale == half(scale as int),
                kids == self.kids(depth as nat),
                steps@ == dispatch(*key, c, scale),
                found@ + kids_query(kids, c, scale, depth as nat, *key, idx as nat) == old(found)@
                    + kids_query(kids, c, scale, depth as nat, *key, 0),
            decreases 8 - idx,
        {
            if let Some(centre) = steps[idx] {
                let ghost so_far = found@;
                assert(cube_bounded(octant_centre(c, scale, idx as nat), hscale));
                self.children[idx].quary(centre, hscale, depth, key, found);
                assert(found@ + kids_query(kids, c, scale, depth as nat, *key, (idx + 1) as nat)
                    =~= so_far + kids_query(kids, c, scale, depth as nat, *key, idx as nat));
            }
            idx += 1;
        }
        assert(found@ + kids_query(kids, c, scale, depth as nat, *key, 8) =~= found@);
    }
}

/// A node with children is the branch of their trees.
proof fn lemma_model_child<K, V>(node: Node<K, V>, depth: nat)
    requires
        node is Child,
        depth > 0,
    ensures
        node.model(depth) == Tree::Child(node->Child_0.kids((depth - 1) as nat)),
        node.wf(depth) == node->Child_0.wf((depth - 1) as nat),
{
    let branch = node->Child_0;
    let below = (depth - 1) as nat;
    let kids = Seq::new(8, |i: int| branch.children@[i].model(below));
    assert(kids =~= branch.kids(below));
    assert(node.model(depth) == Tree::Child(kids)) by {
        assert(node.model(depth) matches Tree::Child(k) && k =~= kids);
    }
}

/// How many of the first `n` trees hold one key, and how many hold several
/// keys or children.
pub open spec fn tally<K, V>(kids: Seq<Tree<K, V>>, n: nat) -> (nat, nat)
    decreases n,
{
    if n == 0 {
        (0, 0)
    } else {
        let (data, child) = tally(kids, (n - 1) as nat);
        match kids[n - 1] {
            Tree::Empty => (data, child),
            Tree::Data(_, _) => (data + 1, child),
            _ => (data, child + 1),
        }
    }
}

impl<K: Copy + CheckRange3 + Intersects<K> + PartialEq, V: Copy> Node<K, V> {
    /// Puts a key into the node, which may divide `depth` times more.
    fn insert(&mut self, centre: Point3, scale: i32, depth: usize, key: &K, value: &V)
        requires
            old(self).wf(depth as nat),
            cube_bounded(centre, scale),
        ensures
            final(self).wf(depth as nat),
            final(self).model(depth as nat) == tree_insert(
                old(self).model(depth as nat),
                centre,
                scale,
                depth as nat,
                *key,
                *value,
            ),
        decreases depth, 0nat,
    {
        proof {
            reveal_with_fuel(Node::model, 2);
            reveal_with_fuel(Node::wf, 2);
        }
        let mut taken = Node::Empty;
        core::mem::swap(self, &mut taken);
        let put = match taken {
            Node::Empty => Node::Data(*key, *value),
            Node::Data(k, v) => {
                if depth == 0 || k.intersect(key) {
                    let mut list: Vec<(K, V)> = Vec::new();
                    list.push((k, v));
                    list.push((*key, *value));
                    assert(list@ =~= seq![(k, v), (*key, *value)]);
                    Node::Collide(list)
                } else {
                    let mut data = Branch::new();
                    data.insert(centre, scale, depth - 1, &k, &v);
                    data.insert(centre, scale, depth - 1, key, value);
                    let put = Node::Child(Arc::new(data));
                    proof {
                        lemma_model_child(put, depth as nat);
                    }
                    put
                }
            },
            Node::Collide(mut list) => {
                let mut all_collide = true;
                if depth != 0 {
                    let mut i: usize = 0;
                    while i < list.len() && all_collide
                        invariant
                            i <= list.len(),
                            all_collide == overlaps_all(*key, list@.take(i as int)),
                        decreases list.len() - i,
                    {
                        let hit = key.intersect(&list[i].0);
                        proof {
                            let grown = list@.take(i + 1);
                            assert(grown[i as int] == list@[i as int]);
                            if hit {
                                assert forall|j: int| 0 <= j < grown.len() implies key.overlaps(
                                    &(#[trigger] grown[j]).0,
                                ) by {
                                    if j < i {
                                        assert(grown[j] == list@.take(i as int)[j]);
                                    }
                                }
                            }
                        }
                        all_collide = hit;
                        i += 1;
                    }
                    proof {
                        if all_collide {
                            assert(list@.take(list@.len() as int) =~= list@);
                        } else {
                            let short = list@.take(i as int);
                            let j = choose|j: int|
                                0 <= j < short.len() && !key.overlaps(&(#[trigger] short[j]).0);
                            assert(list@[j] == short[j]);
                        }
                    }
                }
                if all_collide {
                    list.push((*key, *value));
                    Node::Collide(list)
                } else {
                    let mut new = Branch::new();
                    let mut i: usize = 0;
                    while i < list.len()
                        invariant
                            i <= list.len(),
                            depth > 0,
                            cube_bounded(centre, scale),
                            new.wf((depth - 1) as nat),
                            kids_insert_all(
                                new.kids((depth - 1) as nat),
                                centre,
                                scale,
                                (depth - 1) as nat,
                                list@,
                                i as nat,
                            ) == kids_insert_all(
                                empty_kids(),
                                centre,
                                scale,
                                (depth - 1) as nat,
                                list@,
                                0,
                            ),
                        decreases list.len() - i,
                    {
                        let (k, v) = list[i];
                        new.insert(centre, scale, depth - 1, &k, &v);
                        i += 1;
                    }
                    new.insert(centre, scale, depth - 1, key, value);
                    let put = Node::Child(Arc::new(new));
                    proof {
                        lemma_model_child(put, depth as nat);
                    }
                    put
                }
            },
            Node::Child(child) => {
                proof {
                    lemma_model_child(taken, depth as nat);
                }
                let mut owned = match try_unwrap(child) {
                    Ok(owned) => owned,
                    Err(shared) => (*shared).clone(),
                };
                owned.insert(centre, scale, depth - 1, key, value);
                let put = Node::Child(Arc::new(owned));
                proof {
                    lemma_model_child(put, depth as nat);
                }
                put
            },
        };
        *self = put;
    }

    /// Takes a key out of the node and of what is below it.
    fn remove(&mut self, centre: Point3, scale: i32, depth: usize, key: &K)
        requires
            old(self).wf(depth as nat),
            cube_bounded(centre, scale),
        ensures
            final(self).wf(depth as nat),
            K::obeys_eq_spec() ==> final(self).model(depth as nat) == tree_remove(
                old(self).model(depth as nat),
                centre,
                scale,
                depth as nat,
                *key,
            ),
        decreases depth, 0nat,
    {
        proof {
            reveal_with_fuel(Node::model, 2);
            reveal_with_fuel(Node::wf, 2);
        }
        let mut taken = Node::Empty;
        core::mem::swap(self, &mut taken);
        let put = match taken {
            Node::Empty => Node::Empty,
            Node::Data(_, _) => Node::Empty,
            Node::Collide(mut list) => {
                let mut i: usize = 0;
                while i < list.len() && !(list[i].0 == *key)
                    invariant
                        i <= list.len(),
                        K::obeys_eq_spec() ==> first_equal(list@, *key, i as nat) == first_equal(
                            list@,
                            *key,
                            0,
                        ),
                    decreases list.len() - i,
                {
                    i += 1;
                }
                if i < list.len() {
                    list.remove(i);
                }
                Node::Collide(list)
            },
            Node::Child(child) => {
                proof {
                    lemma_model_child(taken, depth as nat);
                }
                let mut owned = match try_unwrap(child) {
                    Ok(owned) => owned,
                    Err(shared) => (*shared).clone(),
                };
                owned.remove(centre, scale, depth - 1, key);
                let put = Node::Child(Arc::new(owned));
                proof {
                    lemma_model_child(put, depth as nat);
                }
                put
            },
        };
        *self = put;
    }

    /// Adds to `found` what the node and what is below it hold that a shape
    /// reaches.
    fn quary<Q: CheckRange3>(
        &self,
        centre: Point3,
        scale: i32,
        depth: usize,
        key: &Q,
        found: &mut Vec<(K, V)>,
    )
        requires
            self.wf(depth as nat),
            cube_bounded(centre, scale),
        ensures
            final(found)@ == old(found)@ + tree_query(
                self.model(depth as nat),
                centre,
                scale,
                depth as nat,
                *key,
            ),
        decreases depth, 0nat,
    {
        proof {
            reveal_with_fuel(Node::model, 2);
            reveal_with_fuel(Node::wf, 2);
        }
        let ghost so_far = found@;
        match self {
            Node::Empty => {
                assert(found@ =~= so_far + Seq::<(K, V)>::empty());
            },
            Node::Data(k, v) => {
                found.push((*k, *v));
                assert(found@ =~= so_far + seq![(*k, *v)]);
            },
            Node::Collide(list) => {
                let mut i: usize = 0;
                while i < list.len()
                    invariant
                        i <= list.len(),
                        found@ == so_far + list@.take(i as int),
                    decreases list.len() - i,
                {
                    found.push(list[i]);
                    assert(list@.take(i + 1) =~= list@.take(i as int).push(list@[i as int]));
                    i += 1;
                }
                assert(list@.take(list@.len() as int) =~= list@);
            },
            Node::Child(child) => {
                proof {
                    lemma_model_child(*self, depth as nat);
                }
                child.quary(centre, scale, depth - 1, key, found);
            },
        }
    }
}

/// An octree around the origin whose nodes divide on demand.
pub struct Sparse<K, V> {
    root: Node<K, V>,
    scale: i32,
    max_depth: usize,
}

impl<K: Copy + CheckRange3 + Intersects<K> + PartialEq, V: Copy> Sparse<K, V> {
    /// The tree as a mathematical value.
    pub closed spec fn view(&self) -> Tree<K, V> {
        self.root.model(self.max_depth as nat)
    }

    /// Half the side of the cube that the tree divides.
    pub closed spec fn half_side(&self) -> i32 {
        self.scale
    }

    /// How many times a node may divide.
    pub closed spec fn depth(&self) -> nat {
        self.max_depth as nat
    }

    /// No path through the tree leads down more than `depth` branches.
    pub closed spec fn wf(&self) -> bool {
        self.root.wf(self.max_depth as nat)
    }

    /// An empty tree for the cube of half side `scale` around the origin,
    /// whose nodes divide at most `max_depth` times.
    pub fn new(scale: i32, max_depth: usize) -> (oct: Sparse<K, V>)
        ensures
            oct.wf(),
            oct@ == Tree::<K, V>::Empty,
            oct.half_side() == scale,
            oct.depth() == max_depth,
    {
        proof {
            reveal_with_fuel(Node::model, 2);
            reveal_with_fuel(Node::wf, 2);
        }
        Sparse { scale, root: Node::Empty, max_depth }
    }

    /// Puts a key with its value into every node that the key reaches.
    pub fn insert(&mut self, key: K, value: V)
        requires
            old(self).wf(),
        ensures
            final(self).wf(),
            final(self).half_side() == old(self).half_side(),
            final(self).depth() == old(self).depth(),
            final(self)@ == tree_insert(
                old(self)@,
                Point3::zero(),
                old(self).half_side(),
                old(self).depth(),
                key,
                value,
            ),
    {
        self.root.insert(Point3::origin(), self.scale, self.max_depth, &key, &value);
    }

    /// Takes a key out of the nodes that the key reaches: a node with one
    /// key becomes empty, whatever its key, and a node with several keys
    /// loses the first entry with that key.
    pub fn remove(&mut self, key: K)
        requires
            old(self).wf(),
        ensures
            final(self).wf(),
            final(self).half_side() == old(self).half_side(),
            final(self).depth() == old(self).depth(),
            K::obeys_eq_spec() ==> final(self)@ == tree_remove(
                old(self)@,
                Point3::zero(),
                old(self).half_side(),
                old(self).depth(),
                key,
            ),
    {
        self.root.remove(Point3::origin(), self.scale, self.max_depth, &key);
    }

    /// Everything held by the nodes that a query shape reaches, in the
    /// order of the octants. The keys found need not overlap the shape:
    /// they share a node with it.
    pub fn quary<Q: CheckRange3>(&self, key: &Q) -> (found: Vec<(K, V)>)
        requires
            self.wf(),
        ensures
            found@ == tree_query(self@, Point3::zero(), self.half_side(), self.depth(), *key),
    {
        let mut found: Vec<(K, V)> = Vec::new();
        self.root.quary(Point3::origin(), self.scale, self.max_depth, key, &mut found);
        assert(Seq::<(K, V)>::empty() + tree_query(
            self@,
            Point3::zero(),
            self.half_side(),
            self.depth(),
            *key,
        ) =~= tree_query(self@, Point3::zero(), self.half_side(), self.depth(), *key));
        found
    }
}

impl<K: Copy + CheckRange3 + Intersects<K> + PartialEq, V: Copy> Clone for Sparse<K, V> {
    /// A copy of the tree that shares every branch with it, until one of
    /// the two is changed there.
    fn clone(&self) -> (copy: Sparse<K, V>)
        ensures
            copy@ == self@,
            copy.wf() == self.wf(),
            copy.half_side() == self.half_side(),
            copy.depth() == self.depth(),
    {
        Sparse { scale: self.scale, root: self.root.clone(), max_depth: self.max_depth }
    }
}

/// A branch has eight children, and no path through the tree leads down
/// more than `depth` branches.
pub open spec fn tree_ok<K, V>(tree: Tree<K, V>, depth: nat) -> bool
    decreases depth, 0nat,
{
    match tree {
        Tree::Child(kids) => depth > 0 && kids_ok(kids, (depth - 1) as nat),
        _ => true,
    }
}

/// There are eight children, and no path through one of them leads down
/// more than `depth` branches.
pub open spec fn kids_ok<K, V>(kids: Seq<Tree<K, V>>, depth: nat) -> bool
    decreases depth, 1nat,
{
    kids.len() == 8 && forall|i: int| 0 <= i < 8 ==> tree_ok(#[trigger] kids[i], depth)
}

/// What `kids_insert` leaves at each place: the tree with the key put in,
/// where the key reaches the octant, and the old tree elsewhere.
proof fn lemma_kids_insert_at<K: CheckRange3 + Intersects<K>, V>(
    kids: Seq<Tree<K, V>>,
    centre: Point3,
    scale: i32,
    depth: nat,
    key: K,
    value: V,
    from: nat,
)
    requires
        kids.len() == 8,
    ensures
        kids_insert(kids, centre, scale, depth, key, value, from).len() == 8,
        forall|i: int|
            0 <= i < 8 ==> #[trigger] kids_insert(kids, centre, scale, depth, key, value, from)[i] == (
            if i >= from && reached(key, centre)[i] {
                tree_insert(
                    kids[i],
                    octant_centre(centre, scale, i as nat),
                    half(scale as int) as i32,
                    depth,
                    key,
                    value,
                )
            } else {
                kids[i]
            }),
    decreases 8 - from,
{
    if from < 8 {
        if !reached(key, centre)[from as int] {
            lemma_kids_insert_at(kids, centre, scale, depth, key, value, from + 1);
        } else {
            let next = kids.update(
                from as int,
                tree_insert(
                    kids[from as int],
                    octant_centre(centre, scale, from),
                    half(scale as int) as i32,
                    depth,
                    key,
                    value,
                ),
            );
            lemma_kids_insert_at(next, centre, scale, depth, key, value, from + 1);
        }
    }
}

/// What a query finds in a child whose octant it reaches, it finds in the
/// branch.
proof fn lemma_kids_query_has<K, V, Q: CheckRange3>(
    kids: Seq<Tree<K, V>>,
    centre: Point3,
    scale: i32,
    depth: nat,
    shape: Q,
    from: nat,
    at: nat,
    entry: (K, V),
)
    requires
        from <= at < 8,
        reached(shape, centre)[at as int],
        tree_query(
            kids[at as int],
            octant_centre(centre, scale, at),
            half(scale as int) as i32,
            depth,
            shape,
        ).contains(entry),
    ensures
        kids_query(kids, centre, scale, depth, shape, from).contains(entry),
    decreases 8 - from,
{
    let here = tree_query(
        kids[from as int],
        octant_centre(centre, scale, from),
        half(scale as int) as i32,
        depth,
        shape,
    );
    let later = kids_query(kids, centre, scale, depth, shape, from + 1);
    if from < at {
        lemma_kids_query_has(kids, centre, scale, depth, shape, from + 1, at, entry);
        if reached(shape, centre)[from as int] {
            let j = choose|j: int| 0 <= j < later.len() && later[j] == entry;
            assert((here + later)[here.len() + j] == entry);
        }
    } else {
        let j = choose|j: int| 0 <= j < here.len() && here[j] == entry;
        assert((here + later)[j] == entry);
    }
}

/// Putting a key into a tree leaves it a tree of the same depth.
proof fn lemma_insert_ok<K: CheckRange3 + Intersects<K>, V>(
    tree: Tree<K, V>,
    centre: Point3,
    scale: i32,
    depth: nat,
    key: K,
    value: V,
)
    requires
        tree_ok(tree, depth),
    ensures
        tree_ok(tree_insert(tree, centre, scale, depth, key, value), depth),
    decreases depth, 0nat, 0nat,
{
    if depth > 0 {
        let d = (depth - 1) as nat;
        match tree {
            Tree::Empty => {},
            Tree::Data(k, v) => {
                assert(kids_ok(empty_kids::<K, V>(), d));
                lemma_kids_insert_ok(empty_kids(), centre, scale, d, k, v);
                lemma_kids_insert_ok(
                    kids_insert(empty_kids(), centre, scale, d, k, v, 0),
                    centre,
                    scale,
                    d,
                    key,
                    value,
                );
            },
            Tree::Collide(list) => {
                assert(kids_ok(empty_kids::<K, V>(), d));
                lemma_kids_insert_all_ok(empty_kids(), centre, scale, d, list, 0);
                lemma_kids_insert_ok(
                    kids_insert_all(empty_kids(), centre, scale, d, list, 0),
                    centre,
                    scale,
                    d,
                    key,
                    value,
                );
            },
            Tree::Child(kids) => {
                lemma_kids_insert_ok(kids, centre, scale, d, key, value);
            },
        }
    }
}

proof fn lemma_kids_insert_ok<K: CheckRange3 + Intersects<K>, V>(
    kids: Seq<Tree<K, V>>,
    centre: Point3,
    scale: i32,
    depth: nat,
    key: K,
    value: V,
)
    requires
        kids_ok(kids, depth),
    ensures
        kids_ok(kids_insert(kids, centre, scale, depth, key, value, 0), depth),
    decreases depth, 1nat, 0nat,
{
    lemma_kids_insert_at(kids, centre, scale, depth, key, value, 0);
    let after = kids_insert(kids, centre, scale, depth, key, value, 0);
    assert forall|i: int| 0 <= i < 8 implies tree_ok(#[trigger] after[i], depth) by {
        assert(tree_ok(kids[i], depth));
        if reached(key, centre)[i] {
            lemma_insert_ok(
                kids[i],
                octant_centre(centre, scale, i as nat),
                half(scale as int) as i32,
                depth,
                key,
                value,
            );
        }
    }
}

proof fn lemma_kids_insert_all_ok<K: CheckRange3 + Intersects<K>, V>(
    kids: Seq<Tree<K, V>>,
    centre: Point3,
    scale: i32,
    depth: nat,
    list: Seq<(K, V)>,
    from: nat,
)
    requires
        kids_ok(kids, depth),
    ensures
        kids_ok(kids_insert_all(kids, centre, scale, depth, list, from), depth),
    decreases depth, 2nat, list.len() - from,
{
    if from < list.len() {
        lemma_kids_insert_ok(kids, centre, scale, depth, list[from as int].0, list[from as int].1);
        lemma_kids_insert_all_ok(
            kids_insert(kids, centre, scale, depth, list[from as int].0, list[from as int].1, 0),
            centre,
            scale,
            depth,
            list,
            from + 1,
        );
    }
}

/// Round trip: a query with a key that was just put into a tree finds the
/// key with its value, if the key lies somewhere.
pub proof fn lemma_tree_round_trip<K: CheckRange3 + Intersects<K>, V>(
    tree: Tree<K, V>,
    centre: Point3,
    scale: i32,
    depth: nat,
    key: K,
    value: V,
)
    requires
        tree_ok(tree, depth),
        located(key),
    ensures
        tree_query(tree_insert(tree, centre, scale, depth, key, value), centre, scale, depth, key).contains(
            (key, value),
        ),
    decreases depth,
{
    let after = tree_insert(tree, centre, scale, depth, key, value);
    let found = tree_query(after, centre, scale, depth, key);
    match after {
        Tree::Empty => {},
        Tree::Data(k, v) => {
            assert(found[0] == (key, value));
        },
        Tree::Collide(list) => {
            assert(found[list.len() - 1] == (key, value));
        },
        Tree::Child(kids) => {
            let d = (depth - 1) as nat;
            let start = match tree {
                Tree::Data(k, v) => kids_insert(empty_kids(), centre, scale, d, k, v, 0),
                Tree::Collide(list) => kids_insert_all(empty_kids(), centre, scale, d, list, 0),
                Tree::Child(old) => old,
                Tree::Empty => empty_kids(),
            };
            assert(kids_ok(start, d)) by {
                assert(kids_ok(empty_kids::<K, V>(), d));
                match tree {
                    Tree::Data(k, v) => {
                        lemma_kids_insert_ok(empty_kids(), centre, scale, d, k, v);
                    },
                    Tree::Collide(list) => {
                        lemma_kids_insert_all_ok(empty_kids(), centre, scale, d, list, 0);
                    },
                    _ => {},
                }
            }
            assert(kids == kids_insert(start, centre, scale, d, key, value, 0));
            lemma_located_reaches(key, centre);
            let at = some_octant(key.side_x(centre.x), key.side_y(centre.y), key.side_z(centre.z));
            lemma_kids_insert_at(start, centre, scale, d, key, value, 0);
            assert(tree_ok(start[at], d));
            lemma_tree_round_trip(
                start[at],
                octant_centre(centre, scale, at as nat),
                half(scale as int) as i32,
                d,
                key,
                value,
            );
            lemma_kids_query_has(kids, centre, scale, d, key, 0, at as nat, (key, value));
        },
    }
}

impl<K: Copy + CheckRange3 + Intersects<K> + PartialEq, V: Copy> Sparse<K, V> {
    /// The tree of a well-formed octree is a tree of its depth.
    pub proof fn lemma_view_ok(self)
        requires
            self.wf(),
        ensures
            tree_ok(self@, self.depth()),
    {
        lemma_model_ok(self.root, self.max_depth as nat);
    }
}

proof fn lemma_model_ok<K, V>(node: Node<K, V>, depth: nat)
    requires
        node.wf(depth),
    ensures
        tree_ok(node.model(depth), depth),
    decreases depth,
{
    if node is Child {
        lemma_model_child(node, depth);
        let branch = node->Child_0;
        let d = (depth - 1) as nat;
        lemma_kids_model_ok(&*branch, d);
    }
}

proof fn lemma_kids_model_ok<K, V>(branch: &Branch<K, V>, depth: nat)
    requires
        branch.wf(depth),
    ensures
        kids_ok(branch.kids(depth), depth),
    decreases depth, 
{
    assert forall|i: int| 0 <= i < 8 implies tree_ok(#[trigger] branch.kids(depth)[i], depth) by {
        let node = branch.children@[i];
        assert(node.wf(depth));
        if node is Child {
            lemma_model_child(node, depth);
            lemma_kids_model_ok(&*(node->Child_0), (depth - 1) as nat);
        }
    }
}

} // verus!
