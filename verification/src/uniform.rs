//! A uniform grid over a square of the plane. Each cell heads a chain of the
//! items whose center lies in it; the items stand in one arena, and the
//! places of removed items are used again.

use vstd::multiset::Multiset;
use vstd::prelude::*;
use vstd::seq_lib::{lemma_multiset_commutative, to_multiset_build, to_multiset_remove};
use vstd::std_specs::cmp::PartialEqSpec;
use crate::point::Point2;
use crate::{Center, Intersects};

verus! {

struct Item<C, V> {
    next: Option<i32>,
    collider: C,
    value: V,
}

/// A grid of `size` by `size` cells over the square that reaches `scale`
/// from the origin on both axes.
pub struct Uniform2D<C, V> {
    scale: i32,
    size: i32,
    items: Vec<Item<C, V>>,
    free: Vec<i32>,
    grid: Vec<Option<i32>>,
    chains: Ghost<Seq<Seq<int>>>,
}

/// The row or column of a coordinate: `size * (pt + scale) / (2 * scale)`,
/// rounded down.
pub open spec fn offset_of(size: i32, scale: i32, pt: i32) -> int {
    size * (pt + scale) / (2 * scale)
}

/// The row or column of a coordinate, where it is one of the grid.
pub open spec fn offset_in(size: i32, scale: i32, pt: i32) -> Option<i32> {
    let at = offset_of(size, scale, pt);
    if scale > 0 && 0 <= at < size {
        Some(at as i32)
    } else {
        None
    }
}

/// The index of the cell that a point lies in: the column times `size`,
/// plus the row.
pub open spec fn cell_of(size: i32, scale: i32, p: Point2) -> Option<int> {
    match (offset_in(size, scale, p.x), offset_in(size, scale, p.y)) {
        (Some(x), Some(y)) => Some(x * size + y),
        _ => None,
    }
}

/// The chain `chain` of places in the arena starts at `head`, and each of
/// its items points to the next.
spec fn linked<C, V>(items: Seq<Item<C, V>>, head: Option<i32>, chain: Seq<int>) -> bool {
    &&& head == link_at(chain, 0)
    &&& forall|j: int|
        0 <= j < chain.len() ==> 0 <= #[trigger] chain[j] < items.len() && items[chain[j]].next
            == link_at(chain, j + 1)
}

/// The link to the place `j` of a chain: none at its end.
spec fn link_at(chain: Seq<int>, j: int) -> Option<i32> {
    if 0 <= j < chain.len() {
        Some(chain[j] as i32)
    } else {
        None
    }
}

/// The place in the arena of the item `j` of the chain of cell `c`.
spec fn place(chains: Seq<Seq<int>>, c: int, j: int) -> int {
    chains[c][j]
}

/// The entries of a chain: shape and value of each item, the head first.
spec fn entries_of<C, V>(items: Seq<Item<C, V>>, chain: Seq<int>) -> Seq<(C, V)> {
    Seq::new(chain.len(), |j: int| (items[chain[j]].collider, items[chain[j]].value))
}

/// The number of items in the chains of the first `n` cells.
spec fn total(chains: Seq<Seq<int>>, n: nat) -> nat
    decreases n,
{
    if n == 0 {
        0
    } else {
        total(chains, (n - 1) as nat) + chains[n - 1].len()
    }
}

proof fn lemma_total_update(chains: Seq<Seq<int>>, c: int, chain: Seq<int>, n: nat)
    requires
        0 <= c < chains.len(),
        n <= chains.len(),
    ensures
        total(chains.update(c, chain), n) == (if c < n {
            total(chains, n) - chains[c].len() + chain.len()
        } else {
            total(chains, n) as int
        }),
        c < n ==> total(chains, n) >= chains[c].len(),
    decreases n,
{
    if n > 0 {
        lemma_total_update(chains, c, chain, (n - 1) as nat);
    }
}

proof fn lemma_total_empty(chains: Seq<Seq<int>>, n: nat)
    requires
        n <= chains.len(),
        forall|c: int| 0 <= c < chains.len() ==> (#[trigger] chains[c]).len() == 0,
    ensures
        total(chains, n) == 0,
    decreases n,
{
    if n > 0 {
        lemma_total_empty(chains, (n - 1) as nat);
    }
}

proof fn lemma_total_grows(chains: Seq<Seq<int>>, a: nat, b: nat)
    requires
        a <= b <= chains.len(),
    ensures
        total(chains, a) <= total(chains, b),
    decreases b,
{
    if a < b {
        lemma_total_grows(chains, a, (b - 1) as nat);
    }
}

/// The entries of all chains.
spec fn cells_view<C, V>(items: Seq<Item<C, V>>, chains: Seq<Seq<int>>) -> Seq<Seq<(C, V)>> {
    Seq::new(chains.len(), |c: int| entries_of(items, chains[c]))
}

/// The place `at` of the arena is in no chain and not free.
spec fn unused(free: Seq<i32>, chains: Seq<Seq<int>>, at: int) -> bool {
    &&& forall|c: int, j: int|
        0 <= c < chains.len() && 0 <= j < chains[c].len() ==> #[trigger] place(chains, c, j) != at
    &&& forall|f: int| 0 <= f < free.len() ==> #[trigger] free[f] != at
}

spec fn arena_ok<C: Center<Point2>, V>(
    items: Seq<Item<C, V>>,
    grid: Seq<Option<i32>>,
    free: Seq<i32>,
    chains: Seq<Seq<int>>,
    size: i32,
    scale: i32,
) -> bool {
    &&& scale > 0
    &&& size >= 0
    &&& size * size <= i32::MAX
    &&& grid.len() == size * size
    &&& items.len() <= i32::MAX
    &&& chains.len() == grid.len()
    &&& total(chains, chains.len()) + free.len() <= items.len()
    &&& forall|c: int| 0 <= c < chains.len() ==> linked(items, #[trigger] grid[c], chains[c])
    &&& forall|c: int, j: int, d: int, k: int|
        0 <= c < chains.len() && 0 <= j < chains[c].len() && 0 <= d < chains.len() && 0 <= k
            < chains[d].len() && (c != d || j != k) ==> #[trigger] place(chains, c, j)
            != #[trigger] place(chains, d, k)
    &&& forall|f: int| 0 <= f < free.len() ==> 0 <= #[trigger] free[f] < items.len()
    &&& free.no_duplicates()
    &&& forall|c: int, j: int, f: int|
        0 <= c < chains.len() && 0 <= j < chains[c].len() && 0 <= f < free.len()
            ==> #[trigger] place(chains, c, j) != #[trigger] free[f]
    &&& forall|c: int, j: int|
        0 <= c < chains.len() && 0 <= j < chains[c].len() ==> cell_of(
            size,
            scale,
            items[#[trigger] place(chains, c, j)].collider.midpoint(),
        ) == Some(c)
}

/// Putting an item at an unused place and at the head of a chain keeps the
/// arena in order, and puts its entry at the head of the entries.
proof fn lemma_link_head<C: Center<Point2>, V>(
    items: Seq<Item<C, V>>,
    grid: Seq<Option<i32>>,
    free: Seq<i32>,
    chains: Seq<Seq<int>>,
    size: i32,
    scale: i32,
    cell: int,
    at: int,
    item: Item<C, V>,
)
    requires
        arena_ok(items, grid, free, chains, size, scale),
        0 <= cell < chains.len(),
        0 <= at <= items.len(),
        at < i32::MAX,
        at < items.len() ==> unused(free, chains, at),
        at < items.len() ==> total(chains, chains.len()) + free.len() < items.len(),
        item.next == grid[cell],
        cell_of(size, scale, item.collider.midpoint()) == Some(cell),
    ensures
        ({
            let items2 = if at < items.len() {
                items.update(at, item)
            } else {
                items.push(item)
            };
            let chains2 = chains.update(cell, seq![at] + chains[cell]);
            &&& arena_ok(items2, grid.update(cell, Some(at as i32)), free, chains2, size, scale)
            &&& cells_view(items2, chains2) == cells_insert(
                cells_view(items, chains),
                cell,
                (item.collider, item.value),
            )
        }),
{
    let items2 = if at < items.len() {
        items.update(at, item)
    } else {
        items.push(item)
    };
    let grid2 = grid.update(cell, Some(at as i32));
    let chain2 = seq![at] + chains[cell];
    let chains2 = chains.update(cell, chain2);
    lemma_total_update(chains, cell, chain2, chains.len());
    assert forall|c: int, j: int| 0 <= c < chains.len() && 0 <= j < chains[c].len() implies 0
        <= #[trigger] place(chains, c, j) < items.len() && place(chains, c, j) != at && items2[place(
        chains,
        c,
        j,
    )] == items[place(chains, c, j)] by {
        assert(linked(items, grid[c], chains[c]));
        assert(chains[c][j] == place(chains, c, j));
    }
    assert forall|c: int, j: int| 0 <= c < chains2.len() && 0 <= j < chains2[c].len() implies #[trigger] place(
        chains2,
        c,
        j,
    ) == (if c == cell {
        if j == 0 {
            at
        } else {
            place(chains, c, j - 1)
        }
    } else {
        place(chains, c, j)
    }) by {}
    assert forall|c: int| 0 <= c < chains2.len() implies linked(
        items2,
        #[trigger] grid2[c],
        chains2[c],
    ) by {
        assert(linked(items, grid[c], chains[c]));
        if c == cell {
            assert forall|j: int| 0 <= j < chain2.len() implies 0 <= #[trigger] chain2[j]
                < items2.len() && items2[chain2[j]].next == link_at(chain2, j + 1) by {
                if j > 0 {
                    assert(chain2[j] == place(chains, cell, j - 1));
                    assert(chains[cell][j - 1] == chain2[j]);
                }
            }
        } else {
            assert forall|j: int| 0 <= j < chains[c].len() implies 0 <= #[trigger] chains[c][j]
                < items2.len() && items2[chains[c][j]].next == link_at(chains[c], j + 1) by {
                assert(chains[c][j] == place(chains, c, j));
            }
        }
    }
    assert forall|c: int, j: int, d: int, k: int|
        0 <= c < chains2.len() && 0 <= j < chains2[c].len() && 0 <= d < chains2.len() && 0 <= k
            < chains2[d].len() && (c != d || j != k) implies #[trigger] place(chains2, c, j)
        != #[trigger] place(chains2, d, k) by {
        let cj = if c == cell {
            j - 1
        } else {
            j
        };
        let dk = if d == cell {
            k - 1
        } else {
            k
        };
        if cj >= 0 {
            assert(place(chains2, c, j) == place(chains, c, cj));
        }
        if dk >= 0 {
            assert(place(chains2, d, k) == place(chains, d, dk));
        }
    }
    assert forall|c: int, j: int, f: int|
        0 <= c < chains2.len() && 0 <= j < chains2[c].len() && 0 <= f < free.len() implies #[trigger] place(
            chains2,
            c,
            j,
        ) != #[trigger] free[f] by {
        if c == cell && j > 0 {
            assert(place(chains2, c, j) == place(chains, c, j - 1));
        } else if c != cell {
            assert(place(chains2, c, j) == place(chains, c, j));
        }
    }
    assert forall|c: int, j: int| 0 <= c < chains2.len() && 0 <= j < chains2[c].len() implies cell_of(
        size,
        scale,
        items2[#[trigger] place(chains2, c, j)].collider.midpoint(),
    ) == Some(c) by {
        if c == cell && j > 0 {
            assert(place(chains2, c, j) == place(chains, c, j - 1));
        } else if c != cell {
            assert(place(chains2, c, j) == place(chains, c, j));
        }
    }
    let view1 = cells_view(items, chains);
    let view2 = cells_view(items2, chains2);
    assert forall|c: int| 0 <= c < view2.len() implies #[trigger] view2[c] == cells_insert(
        view1,
        cell,
        (item.collider, item.value),
    )[c] by {
        if c == cell {
            assert forall|j: int| 0 < j < chain2.len() implies items2[#[trigger] chain2[j]]
                == items[chains[cell][j - 1]] by {
                assert(chain2[j] == place(chains, cell, j - 1));
            }
            assert(view2[c] =~= seq![(item.collider, item.value)] + view1[c]);
        } else {
            assert forall|j: int| 0 <= j < chains[c].len() implies items2[#[trigger] chains[c][j]]
                == items[chains[c][j]] by {
                assert(chains[c][j] == place(chains, c, j));
            }
            assert(view2[c] =~= view1[c]);
        }
    }
    assert(view2 =~= cells_insert(view1, cell, (item.collider, item.value)));
}

/// What taking the item `j` out of the chain of a cell changes in the
/// arena: the link before it, or the head of the cell.
spec fn unlinked<C, V>(
    items: Seq<Item<C, V>>,
    grid: Seq<Option<i32>>,
    chains: Seq<Seq<int>>,
    cell: int,
    j: int,
    items2: Seq<Item<C, V>>,
    grid2: Seq<Option<i32>>,
) -> bool {
    &&& 0 <= cell < chains.len()
    &&& 0 <= j < chains[cell].len()
    &&& j == 0 ==> items2 == items && grid2 == grid.update(cell, items[chains[cell][0]].next)
    &&& j > 0 ==> grid2 == grid && items2.len() == items.len() && (forall|i: int|
        0 <= i < items.len() && i != chains[cell][j - 1] ==> #[trigger] items2[i] == items[i]) && ({
        let before = chains[cell][j - 1];
        &&& items2[before].next == items[chains[cell][j]].next
        &&& items2[before].collider == items[before].collider
        &&& items2[before].value == items[before].value
    })
}

/// The places of the chains after the item `j` left the chain of a cell,
/// and what the items at those places hold.
proof fn lemma_unlink_places<C: Center<Point2>, V>(
    items: Seq<Item<C, V>>,
    grid: Seq<Option<i32>>,
    free: Seq<i32>,
    chains: Seq<Seq<int>>,
    size: i32,
    scale: i32,
    cell: int,
    j: int,
    items2: Seq<Item<C, V>>,
    grid2: Seq<Option<i32>>,
)
    requires
        arena_ok(items, grid, free, chains, size, scale),
        unlinked(items, grid, chains, cell, j, items2, grid2),
    ensures
        ({
            let chains2 = chains.update(cell, chains[cell].remove(j));
            let gone = chains[cell][j];
            &&& 0 <= gone < items.len()
            &&& gone == place(chains, cell, j)
            &&& forall|c: int, k: int|
                0 <= c < chains2.len() && 0 <= k < chains2[c].len() ==> {
                    let at = #[trigger] place(chains2, c, k);
                    &&& at == place(chains, c, if c == cell && k >= j { k + 1 } else { k })
                    &&& 0 <= at < items.len()
                    &&& at != gone
                    &&& items2[at].collider == items[at].collider
                    &&& items2[at].value == items[at].value
                    &&& items2[at].next == link_at(chains2[c], k + 1)
                }
        }),
{
    let chain = chains[cell];
    let chains2 = chains.update(cell, chain.remove(j));
    let gone = chain[j];
    assert(linked(items, grid[cell], chain));
    assert(gone == place(chains, cell, j));
    assert forall|c: int, k: int| 0 <= c < chains2.len() && 0 <= k < chains2[c].len() implies {
        let at = #[trigger] place(chains2, c, k);
        &&& at == place(chains, c, if c == cell && k >= j { k + 1 } else { k })
        &&& 0 <= at < items.len()
        &&& at != gone
        &&& items2[at].collider == items[at].collider
        &&& items2[at].value == items[at].value
        &&& items2[at].next == link_at(chains2[c], k + 1)
    } by {
        let k1 = if c == cell && k >= j {
            k + 1
        } else {
            k
        };
        let at = place(chains2, c, k);
        assert(at == place(chains, c, k1));
        assert(linked(items, grid[c], chains[c]));
        assert(chains[c][k1] == at);
        assert(items[at].next == link_at(chains[c], k1 + 1));
        if j > 0 {
            assert(chain[j - 1] == place(chains, cell, j - 1));
        }
        if c == cell && k == j - 1 {
            assert(items[gone].next == link_at(chain, j + 1));
            assert(items2[at].next == items[gone].next);
        } else {
            assert(items2[at].next == items[at].next);
            if k1 + 1 < chains[c].len() {
                assert(chains[c][k1 + 1] == chains2[c][k + 1]);
            }
        }
    }
}

/// Taking the item `j` out of the chain of a cell, and making its place
/// free, keeps the arena in order.
proof fn lemma_unlink<C: Center<Point2>, V>(
    items: Seq<Item<C, V>>,
    grid: Seq<Option<i32>>,
    free: Seq<i32>,
    chains: Seq<Seq<int>>,
    size: i32,
    scale: i32,
    cell: int,
    j: int,
    items2: Seq<Item<C, V>>,
    grid2: Seq<Option<i32>>,
)
    requires
        arena_ok(items, grid, free, chains, size, scale),
        unlinked(items, grid, chains, cell, j, items2, grid2),
    ensures
        arena_ok(
            items2,
            grid2,
            free.push(chains[cell][j] as i32),
            chains.update(cell, chains[cell].remove(j)),
            size,
            scale,
        ),
{
    let chain = chains[cell];
    let chain2 = chain.remove(j);
    let chains2 = chains.update(cell, chain2);
    let gone = chain[j];
    let free2 = free.push(gone as i32);
    lemma_total_update(chains, cell, chain2, chains.len());
    lemma_unlink_places(items, grid, free, chains, size, scale, cell, j, items2, grid2);
    assert forall|c: int| 0 <= c < chains2.len() implies linked(
        items2,
        #[trigger] grid2[c],
        chains2[c],
    ) by {
        assert(linked(items, grid[c], chains[c]));
        assert forall|k: int| 0 <= k < chains2[c].len() implies 0 <= #[trigger] chains2[c][k]
            < items2.len() && items2[chains2[c][k]].next == link_at(chains2[c], k + 1) by {
            assert(chains2[c][k] == place(chains2, c, k));
        }
        if c == cell && j == 0 {
            assert(items[gone].next == link_at(chain, 1));
            if chain.len() > 1 {
                assert(chain2[0] == chain[1]);
            }
        } else if chains2[c].len() > 0 {
            assert(chains2[c][0] == chains[c][0]);
        }
    }
    assert forall|c: int, k: int, d: int, m: int|
        0 <= c < chains2.len() && 0 <= k < chains2[c].len() && 0 <= d < chains2.len() && 0 <= m
            < chains2[d].len() && (c != d || k != m) implies #[trigger] place(chains2, c, k)
        != #[trigger] place(chains2, d, m) by {
        let k1 = if c == cell && k >= j {
            k + 1
        } else {
            k
        };
        let m1 = if d == cell && m >= j {
            m + 1
        } else {
            m
        };
        assert(place(chains2, c, k) == place(chains, c, k1));
        assert(place(chains2, d, m) == place(chains, d, m1));
    }
    assert(free2.no_duplicates()) by {
        assert forall|f: int, g: int|
            0 <= f < free2.len() && 0 <= g < free2.len() && f != g implies free2[f] != free2[g] by {
            if f < free.len() && g < free.len() {
            } else if f < free.len() {
                assert(place(chains, cell, j) != free[f]);
            } else {
                assert(place(chains, cell, j) != free[g]);
            }
        }
    }
    assert forall|c: int, k: int, f: int|
        0 <= c < chains2.len() && 0 <= k < chains2[c].len() && 0 <= f < free2.len() implies #[trigger] place(
            chains2,
            c,
            k,
        ) != #[trigger] free2[f] by {
        let k1 = if c == cell && k >= j {
            k + 1
        } else {
            k
        };
        assert(place(chains2, c, k) == place(chains, c, k1));
        if f < free.len() {
            assert(place(chains, c, k1) != free[f]);
        }
    }
    assert forall|c: int, k: int| 0 <= c < chains2.len() && 0 <= k < chains2[c].len() implies cell_of(
        size,
        scale,
        items2[#[trigger] place(chains2, c, k)].collider.midpoint(),
    ) == Some(c) by {
        let k1 = if c == cell && k >= j {
            k + 1
        } else {
            k
        };
        assert(place(chains2, c, k) == place(chains, c, k1));
    }
    assert forall|f: int| 0 <= f < free2.len() implies 0 <= #[trigger] free2[f] < items2.len() by {}
}

/// Taking the item `j` out of the chain of a cell takes its entry out of
/// the entries of the cell.
proof fn lemma_unlink_view<C: Center<Point2>, V>(
    items: Seq<Item<C, V>>,
    grid: Seq<Option<i32>>,
    free: Seq<i32>,
    chains: Seq<Seq<int>>,
    size: i32,
    scale: i32,
    cell: int,
    j: int,
    items2: Seq<Item<C, V>>,
    grid2: Seq<Option<i32>>,
)
    requires
        arena_ok(items, grid, free, chains, size, scale),
        unlinked(items, grid, chains, cell, j, items2, grid2),
    ensures
        cells_view(items2, chains.update(cell, chains[cell].remove(j))) == cells_view(
            items,
            chains,
        ).update(cell, cells_view(items, chains)[cell].remove(j)),
{
    let chains2 = chains.update(cell, chains[cell].remove(j));
    lemma_unlink_places(items, grid, free, chains, size, scale, cell, j, items2, grid2);
    let view1 = cells_view(items, chains);
    let view2 = cells_view(items2, chains2);
    assert forall|c: int| 0 <= c < view2.len() implies #[trigger] view2[c] == view1.update(
        cell,
        view1[cell].remove(j),
    )[c] by {
        assert forall|k: int| 0 <= k < chains2[c].len() implies (
            items2[#[trigger] chains2[c][k]].collider,
            items2[chains2[c][k]].value,
        ) == (items[chains2[c][k]].collider, items[chains2[c][k]].value) by {
            assert(chains2[c][k] == place(chains2, c, k));
        }
        if c == cell {
            assert(view2[c] =~= view1[cell].remove(j));
        } else {
            assert(view2[c] =~= view1[c]);
        }
    }
    assert(view2 =~= view1.update(cell, view1[cell].remove(j)));
}

/// Giving the item `j` of the chain of a cell another shape with its
/// center in the same cell keeps the arena in order, and changes the shape
/// of its entry.
proof fn lemma_reshape<C: Center<Point2>, V>(
    items: Seq<Item<C, V>>,
    grid: Seq<Option<i32>>,
    free: Seq<i32>,
    chains: Seq<Seq<int>>,
    size: i32,
    scale: i32,
    cell: int,
    j: int,
    items2: Seq<Item<C, V>>,
    shape: C,
)
    requires
        arena_ok(items, grid, free, chains, size, scale),
        0 <= cell < chains.len(),
        0 <= j < chains[cell].len(),
        cell_of(size, scale, shape.midpoint()) == Some(cell),
        items2.len() == items.len(),
        forall|i: int| 0 <= i < items.len() && i != chains[cell][j] ==> #[trigger] items2[i] == items[i],
        items2[chains[cell][j]].next == items[chains[cell][j]].next,
        items2[chains[cell][j]].value == items[chains[cell][j]].value,
        items2[chains[cell][j]].collider == shape,
    ensures
        arena_ok(items2, grid, free, chains, size, scale),
        cells_view(items2, chains) == cells_view(items, chains).update(
            cell,
            cells_view(items, chains)[cell].update(j, (shape, items[chains[cell][j]].value)),
        ),
{
    let at = chains[cell][j];
    assert(at == place(chains, cell, j));
    assert forall|c: int, k: int| 0 <= c < chains.len() && 0 <= k < chains[c].len() implies 0
        <= #[trigger] place(chains, c, k) < items.len() && items2[place(chains, c, k)].next == link_at(
        chains[c],
        k + 1,
    ) && (c != cell || k != j ==> items2[place(chains, c, k)] == items[place(chains, c, k)]) by {
        assert(linked(items, grid[c], chains[c]));
        assert(chains[c][k] == place(chains, c, k));
    }
    assert forall|c: int| 0 <= c < chains.len() implies linked(items2, #[trigger] grid[c], chains[c]) by {
        assert(linked(items, grid[c], chains[c]));
        assert forall|k: int| 0 <= k < chains[c].len() implies 0 <= #[trigger] chains[c][k]
            < items2.len() && items2[chains[c][k]].next == link_at(chains[c], k + 1) by {
            assert(chains[c][k] == place(chains, c, k));
        }
    }
    assert forall|c: int, k: int| 0 <= c < chains.len() && 0 <= k < chains[c].len() implies cell_of(
        size,
        scale,
        items2[#[trigger] place(chains, c, k)].collider.midpoint(),
    ) == Some(c) by {}
    let view1 = cells_view(items, chains);
    let view2 = cells_view(items2, chains);
    assert forall|c: int| 0 <= c < view2.len() implies #[trigger] view2[c] == view1.update(
        cell,
        view1[cell].update(j, (shape, items[at].value)),
    )[c] by {
        assert forall|k: int| 0 <= k < chains[c].len() && (c != cell || k != j) implies items2[#[trigger] chains[c][k]]
            == items[chains[c][k]] by {
            assert(chains[c][k] == place(chains, c, k));
        }
        if c == cell {
            assert(view2[c] =~= view1[cell].update(j, (shape, items[at].value)));
        } else {
            assert(view2[c] =~= view1[c]);
        }
    }
    assert(view2 =~= view1.update(cell, view1[cell].update(j, (shape, items[at].value))));
}

/// The place of the first entry at or after `from` with the value `value`,
/// or the length of the chain where there is none.
pub open spec fn first_with<C, V: PartialEq>(chain: Seq<(C, V)>, value: V, from: nat) -> nat
    decreases chain.len() - from,
{
    if from >= chain.len() {
        chain.len()
    } else if chain[from as int].1.eq_spec(&value) {
        from
    } else {
        first_with(chain, value, from + 1)
    }
}

/// The cells after an entry was put at the head of the chain of cell `c`.
pub open spec fn cells_insert<C, V>(cells: Seq<Seq<(C, V)>>, c: int, entry: (C, V)) -> Seq<
    Seq<(C, V)>,
> {
    cells.update(c, seq![entry] + cells[c])
}

/// The cells after the first entry with the value `value` was taken out of
/// the chain of cell `c`, if there is one.
pub open spec fn cells_remove<C, V: PartialEq>(cells: Seq<Seq<(C, V)>>, c: int, value: V) -> Seq<
    Seq<(C, V)>,
> {
    let at = first_with(cells[c], value, 0);
    if at < cells[c].len() {
        cells.update(c, cells[c].remove(at as int))
    } else {
        cells
    }
}

/// The cells after the first entry with the value `value` in the chain of
/// cell `c`, if there is one, got the shape `shape`.
pub open spec fn cells_reshape<C, V: PartialEq>(
    cells: Seq<Seq<(C, V)>>,
    c: int,
    shape: C,
    value: V,
) -> Seq<Seq<(C, V)>> {
    let at = first_with(cells[c], value, 0);
    if at < cells[c].len() {
        cells.update(c, cells[c].update(at as int, (shape, cells[c][at as int].1)))
    } else {
        cells
    }
}

/// The cells after a shape with the value `value` moved from the cell
/// `from` to the cell `to`, either of which may lie off the grid: moved out
/// of the grid, it is taken out; moved in, it is put in; moved within its
/// cell, the first entry with that value gets the new shape; moved to
/// another cell, it is taken out of the one and put into the other.
pub open spec fn cells_update<C, V: PartialEq>(
    cells: Seq<Seq<(C, V)>>,
    from: Option<int>,
    to: Option<int>,
    shape: C,
    value: V,
) -> Seq<Seq<(C, V)>> {
    match (to, from) {
        (None, None) => cells,
        (None, Some(f)) => cells_remove(cells, f, value),
        (Some(t), None) => cells_insert(cells, t, (shape, value)),
        (Some(t), Some(f)) => if t != f {
            cells_insert(cells_remove(cells, f, value), t, (shape, value))
        } else {
            cells_reshape(cells, t, shape, value)
        },
    }
}

/// All entries of the cells `from`, `from + 1`, ..., cell by cell.
pub open spec fn flat_from<C, V>(cells: Seq<Seq<(C, V)>>, from: nat) -> Seq<(C, V)>
    decreases cells.len() - from,
{
    if from >= cells.len() {
        Seq::empty()
    } else {
        cells[from as int] + flat_from(cells, from + 1)
    }
}

/// The entries at and after `from` whose shape a query shape overlaps.
pub open spec fn sift<C: Intersects<C>, V>(chain: Seq<(C, V)>, query: C, from: nat) -> Seq<(C, V)>
    decreases chain.len() - from,
{
    if from >= chain.len() {
        Seq::empty()
    } else if query.overlaps(&chain[from as int].0) {
        seq![chain[from as int]] + sift(chain, query, from + 1)
    } else {
        sift(chain, query, from + 1)
    }
}

/// The cell `k` of the block of three by three cells around the cell in
/// column `cx` and row `cy`, where it is on the grid. The block is numbered
/// row by row: `k % 3 - 1` is the step in the column, `k / 3 - 1` in the
/// row.
pub open spec fn near(size: i32, cx: int, cy: int, k: int) -> Option<int> {
    let x = cx + k % 3 - 1;
    let y = cy + k / 3 - 1;
    if 0 <= x < size && 0 <= y < size {
        Some(x * size + y)
    } else {
        None
    }
}

/// What a query finds in the cells `k`, `k + 1`, ... of the block around a
/// cell: in each cell that is on the grid, the entries that the query shape
/// overlaps.
pub open spec fn scan<C: Intersects<C>, V>(
    cells: Seq<Seq<(C, V)>>,
    size: i32,
    cx: int,
    cy: int,
    query: C,
    k: int,
) -> Seq<(C, V)>
    decreases 9 - k,
{
    if k >= 9 || k < 0 {
        Seq::empty()
    } else {
        let here = match near(size, cx, cy, k) {
            Some(c) => sift(cells[c], query, 0),
            None => Seq::empty(),
        };
        here + scan(cells, size, cx, cy, query, k + 1)
    }
}

impl<C: Center<Point2>, V> Uniform2D<C, V> {
    /// The number of cells on a side.
    pub closed spec fn side(&self) -> i32 {
        self.size
    }

    /// How far the grid reaches from the origin.
    pub closed spec fn reach(&self) -> i32 {
        self.scale
    }

    /// The number of places of the arena, used or free.
    pub closed spec fn slots(&self) -> nat {
        self.items@.len()
    }

    /// The number of free places of the arena.
    pub closed spec fn spare(&self) -> nat {
        self.free@.len()
    }

    /// The chains of all cells: for each cell the entries of its chain, the
    /// head first.
    pub closed spec fn view(&self) -> Seq<Seq<(C, V)>> {
        cells_view(self.items@, self.chains@)
    }

    /// All entries of the grid, cell by cell.
    pub open spec fn entries(&self) -> Seq<(C, V)> {
        flat_from(self@, 0)
    }

    /// The cell of a shape: that of its center.
    pub open spec fn cell(&self, shape: C) -> Option<int> {
        cell_of(self.side(), self.reach(), shape.midpoint())
    }

    /// The arena, the free list and the chains fit together: each chain
    /// runs through places of the arena, no place is in two chains or twice
    /// in one, none is both in a chain and free, and every item stands in
    /// the chain of the cell of its center.
    pub closed spec fn wf(&self) -> bool {
        arena_ok(self.items@, self.grid@, self.free@, self.chains@, self.size, self.scale)
    }

    /// The grid has a chain for each of its `side * side` cells, and a
    /// shape on the grid has its cell among them.
    pub proof fn lemma_cells(self, shape: C)
        requires
            self.wf(),
        ensures
            self@.len() == self.side() * self.side(),
            self.cell(shape) matches Some(c) ==> 0 <= c < self@.len(),
    {
        if let Some(c) = self.cell(shape) {
            let x = offset_in(self.size, self.scale, shape.midpoint().x)->0;
            let y = offset_in(self.size, self.scale, shape.midpoint().y)->0;
            lemma_cell_bounds(x as int, y as int, self.size as int);
        }
    }

    /// Every entry stands in the chain of the cell of its shape.
    pub proof fn lemma_placed(self, c: int, j: int)
        requires
            self.wf(),
            0 <= c < self@.len(),
            0 <= j < self@[c].len(),
        ensures
            self.cell(self@[c][j].0) == Some(c),
    {
        assert(self.chains@[c][j] == place(self.chains@, c, j));
    }

    /// An empty grid.
    pub fn new(size: i32, scale: i32) -> (g: Uniform2D<C, V>)
        requires
            0 <= size,
            size * size <= i32::MAX,
            scale > 0,
        ensures
            g.wf(),
            g.side() == size,
            g.reach() == scale,
            g@ == Seq::new((size * size) as nat, |c: int| Seq::<(C, V)>::empty()),
            g.slots() == 0,
    {
        let mut grid: Vec<Option<i32>> = Vec::new();
        let cells: i32 = size * size;
        let mut i: i32 = 0;
        while i < cells
            invariant
                0 <= i <= cells,
                grid@.len() == i,
                forall|c: int| 0 <= c < i ==> (#[trigger] grid@[c]) is None,
            decreases cells - i,
        {
            grid.push(None);
            i += 1;
        }
        let g = Uniform2D {
            scale,
            size,
            items: Vec::new(),
            free: Vec::new(),
            grid,
            chains: Ghost(Seq::new(cells as nat, |c: int| Seq::<int>::empty())),
        };
        proof {
            lemma_total_empty(g.chains@, g.chains@.len());
        }
        assert(g@ =~= Seq::new((size * size) as nat, |c: int| Seq::<(C, V)>::empty())) by {
            assert forall|c: int| 0 <= c < g@.len() implies #[trigger] g@[c] == Seq::<(C, V)>::empty() by {
                assert(g@[c] =~= Seq::<(C, V)>::empty());
            }
        }
        g
    }

    /// The row or column of a coordinate, if it is one of the grid.
    pub fn get_offset(&self, pt: i32) -> (at: Option<i32>)
        requires
            self.wf(),
        ensures
            at == offset_in(self.side(), self.reach(), pt),
    {
        let shifted: i64 = pt as i64 + self.scale as i64;
        let width: i64 = 2 * (self.scale as i64);
        if shifted < 0 {
            proof {
                lemma_negative_offset(self.size as int, shifted as int, width as int);
            }
            return None;
        }
        proof {
            lemma_offset_bounds(self.size as int, shifted as int, width as int);
        }
        let at: i64 = (self.size as i64 * shifted) / width;
        self.in_range(at)
    }

    /// The number as a row or column, if it is one of the grid.
    fn in_range(&self, i: i64) -> (at: Option<i32>)
        requires
            self.size >= 0,
        ensures
            at == (if 0 <= i < self.size {
                Some(i as i32)
            } else {
                None
            }),
    {
        if i >= self.size as i64 || i < 0 {
            None
        } else {
            Some(i as i32)
        }
    }

    /// The index of the cell of a shape, if its center is on the grid.
    fn idx(&self, collider: &C) -> (at: Option<usize>)
        requires
            self.wf(),
        ensures
            match at {
                Some(c) => self.cell(*collider) == Some(c as int) && c < self.grid@.len(),
                None => self.cell(*collider) is None,
            },
    {
        let pt = collider.center();
        let x = self.get_offset(pt.x);
        let y = self.get_offset(pt.y);
        match (x, y) {
            (Some(x), Some(y)) => {
                proof {
                    lemma_cell_bounds(x as int, y as int, self.size as int);
                }
                Some((x * self.size + y) as usize)
            },
            _ => None,
        }
    }

    /// Puts an item at a free place of the arena, or at a new one.
    fn link(&mut self, item: Item<C, V>) -> (at: i32)
        requires
            old(self).wf(),
            old(self).spare() > 0 || old(self).slots() < i32::MAX,
        ensures
            final(self).scale == old(self).scale,
            final(self).size == old(self).size,
            final(self).grid == old(self).grid,
            final(self).chains == old(self).chains,
            0 <= at <= old(self).items@.len(),
            at < i32::MAX,
            at < old(self).items@.len() ==> unused(final(self).free@, old(self).chains@, at as int),
            at < old(self).items@.len() ==> final(self).items@ == old(self).items@.update(at as int, item),
            at == old(self).items@.len() ==> final(self).items@ == old(self).items@.push(item),
            at == old(self).items@.len() ==> final(self).free@ == old(self).free@,
            at == old(self).items@.len() <==> old(self).free@.len() == 0,
            at < old(self).items@.len() ==> total(old(self).chains@, old(self).chains@.len())
                + final(self).free@.len() < old(self).items@.len(),
            old(self).free@.len() > 0 ==> final(self).free@.len() == old(self).free@.len() - 1,
            arena_ok(
                old(self).items@,
                old(self).grid@,
                final(self).free@,
                old(self).chains@,
                old(self).size,
                old(self).scale,
            ),
    {
        match self.free.pop() {
            Some(idx) => {
                proof {
                    let before = old(self).free@;
                    let top = before.len() - 1;
                    assert(before[top] == idx);
                    assert forall|c: int, j: int|
                        0 <= c < self.chains@.len() && 0 <= j < self.chains@[c].len() implies #[trigger] place(
                            self.chains@,
                            c,
                            j,
                        ) != idx by {
                        assert(place(self.chains@, c, j) != before[top]);
                    }
                    assert forall|f: int| 0 <= f < self.free@.len() implies #[trigger] self.free@[f]
                        != idx by {
                        assert(before[f] == self.free@[f]);
                    }
                    assert forall|f: int, g: int|
                        0 <= f < self.free@.len() && 0 <= g < self.free@.len() && f != g implies self.free@[f]
                        != self.free@[g] by {
                        assert(before[f] == self.free@[f]);
                        assert(before[g] == self.free@[g]);
                    }
                    assert forall|c: int, j: int, f: int|
                        0 <= c < self.chains@.len() && 0 <= j < self.chains@[c].len() && 0 <= f
                            < self.free@.len() implies #[trigger] place(self.chains@, c, j)
                        != #[trigger] self.free@[f] by {
                        assert(before[f] == self.free@[f]);
                    }
                }
                self.items.set(idx as usize, item);
                idx
            },
            None => {
                let last = self.items.len();
                self.items.push(item);
                last as i32
            },
        }
    }

    /// Takes everything out of the grid.
    pub fn clear(&mut self)
        requires
            old(self).wf(),
        ensures
            final(self).wf(),
            final(self).side() == old(self).side(),
            final(self).reach() == old(self).reach(),
            final(self)@ == Seq::new(old(self)@.len(), |c: int| Seq::<(C, V)>::empty()),
            final(self).slots() == 0,
    {
        self.items.clear();
        self.free.clear();
        let mut i: usize = 0;
        while i < self.grid.len()
            invariant
                i <= self.grid@.len(),
                self.grid@.len() == old(self).grid@.len(),
                self.size == old(self).size,
                self.scale == old(self).scale,
                self.items@.len() == 0,
                self.free@.len() == 0,
                forall|c: int| 0 <= c < i ==> (#[trigger] self.grid@[c]) is None,
            decreases self.grid@.len() - i,
        {
            self.grid.set(i, None);
            i += 1;
        }
        self.chains = Ghost(Seq::new(self.grid@.len(), |c: int| Seq::<int>::empty()));
        proof {
            lemma_total_empty(self.chains@, self.chains@.len());
        }
        assert(self@ =~= Seq::new(old(self)@.len(), |c: int| Seq::<(C, V)>::empty())) by {
            assert forall|c: int| 0 <= c < self@.len() implies #[trigger] self@[c] == Seq::<
                (C, V),
            >::empty() by {
                assert(self@[c] =~= Seq::<(C, V)>::empty());
            }
        }
    }

    /// Puts a shape with its value at the head of the chain of its cell. A
    /// shape whose center is not on the grid is left out.
    pub fn insert(&mut self, collider: C, value: V)
        requires
            old(self).wf(),
            old(self).spare() > 0 || old(self).slots() < i32::MAX,
        ensures
            final(self).wf(),
            final(self).side() == old(self).side(),
            final(self).reach() == old(self).reach(),
            match old(self).cell(collider) {
                Some(c) => final(self)@ == cells_insert(old(self)@, c, (collider, value)),
                None => final(self)@ == old(self)@ && final(self).slots() == old(self).slots()
                    && final(self).spare() == old(self).spare(),
            },
            old(self).cell(collider) is Some ==> (if old(self).spare() > 0 {
                final(self).slots() == old(self).slots() && final(self).spare() == old(self).spare() - 1
            } else {
                final(self).slots() == old(self).slots() + 1 && final(self).spare() == 0
            }),
    {
        let idx = match self.idx(&collider) {
            Some(idx) => idx,
            None => {
                return ;
            },
        };
        let item = Item { next: self.grid[idx], collider, value };
        let off = self.link(item);
        proof {
            lemma_link_head(
                old(self).items@,
                old(self).grid@,
                self.free@,
                old(self).chains@,
                self.size,
                self.scale,
                idx as int,
                off as int,
                item,
            );
        }
        self.grid.set(idx, Some(off));
        self.chains = Ghost(self.chains@.update(idx as int, seq![off as int] + self.chains@[idx as int]));
    }
}

impl<C: Center<Point2>, V: PartialEq> Uniform2D<C, V> {
    /// The first item of the chain of a cell with the value `v`: its place
    /// in the arena, and its place in the chain.
    fn find(&self, idx: usize, v: &V) -> (r: (Option<i32>, Ghost<int>))
        requires
            self.wf(),
            idx < self.grid@.len(),
        ensures
            r.0 is Some ==> 0 <= r.1@ < self.chains@[idx as int].len() && self.chains@[idx as int][r.1@]
                == r.0->0,
            V::obeys_eq_spec() ==> match r.0 {
                Some(_) => first_with(self@[idx as int], *v, 0) == r.1@,
                None => first_with(self@[idx as int], *v, 0) == self@[idx as int].len(),
            },
    {
        let ghost chain = self.chains@[idx as int];
        let ghost entries = self@[idx as int];
        let mut start = self.grid[idx];
        let ghost mut j: int = 0;
        assert(linked(self.items@, self.grid@[idx as int], chain));
        loop
            invariant
                self.wf(),
                idx < self.grid@.len(),
                chain == self.chains@[idx as int],
                entries == self@[idx as int],
                linked(self.items@, self.grid@[idx as int], chain),
                0 <= j <= chain.len(),
                start == link_at(chain, j),
                V::obeys_eq_spec() ==> first_with(entries, *v, j as nat) == first_with(entries, *v, 0),
            decreases chain.len() - j,
        {
            match start {
                Some(at) => {
                    assert(chain[j] == at);
                    assert(entries[j] == (self.items@[at as int].collider, self.items@[at as int].value));
                    if self.items[at as usize].value == *v {
                        return (Some(at), Ghost(j));
                    }
                    start = self.items[at as usize].next;
                    proof {
                        j = j + 1;
                    }
                },
                None => {
                    return (None, Ghost(j));
                },
            }
        }
    }

    /// Takes the first item with the value `value` out of the chain of the
    /// cell of a shape, and says whether there was one.
    pub fn remove(&mut self, collider: &C, value: &V) -> (removed: bool)
        requires
            old(self).wf(),
        ensures
            final(self).wf(),
            final(self).side() == old(self).side(),
            final(self).reach() == old(self).reach(),
            final(self).slots() == old(self).slots(),
            !removed ==> final(self)@ == old(self)@ && final(self).spare() == old(self).spare(),
            removed ==> final(self).spare() == old(self).spare() + 1,
            V::obeys_eq_spec() ==> match old(self).cell(*collider) {
                Some(c) => final(self)@ == cells_remove(old(self)@, c, *value) && removed == (first_with(
                    old(self)@[c],
                    *value,
                    0,
                ) < old(self)@[c].len()),
                None => !removed,
            },
    {
        let idx = match self.idx(collider) {
            Some(idx) => idx,
            None => {
                return false;
            },
        };
        let (found, Ghost(j)) = self.find(idx, value);
        let i = match found {
            Some(i) => i,
            None => {
                return false;
            },
        };
        let ghost chain = self.chains@[idx as int];
        proof {
            assert(linked(self.items@, self.grid@[idx as int], chain));
            assert(chain[j] == i);
        }
        let after = self.items[i as usize].next;
        let start = self.grid[idx];
        let mut at_head = false;
        if let Some(s) = start {
            if s == i {
                at_head = true;
            }
        }
        if at_head {
            proof {
                assert(chain[0] == place(self.chains@, idx as int, 0));
                assert(chain[j] == place(self.chains@, idx as int, j));
                lemma_unlink(
                    self.items@,
                    self.grid@,
                    self.free@,
                    self.chains@,
                    self.size,
                    self.scale,
                    idx as int,
                    j,
                    self.items@,
                    self.grid@.update(idx as int, after),
                );
                lemma_unlink_view(
                    self.items@,
                    self.grid@,
                    self.free@,
                    self.chains@,
                    self.size,
                    self.scale,
                    idx as int,
                    j,
                    self.items@,
                    self.grid@.update(idx as int, after),
                );
            }
            self.free.push(i);
            self.grid.set(idx, after);
            self.chains = Ghost(self.chains@.update(idx as int, chain.remove(j)));
            return true;
        }
        proof {
            if j == 0 {
                assert(start == Some(i));
            }
        }
        let mut cur = start;
        let ghost mut p: int = 0;
        loop
            invariant
                *self == *old(self),
                self.wf(),
                idx < self.grid@.len(),
                chain == self.chains@[idx as int],
                linked(self.items@, self.grid@[idx as int], chain),
                0 <= p < j < chain.len(),
                chain[j] == i,
                cur == link_at(chain, p),
                after == self.items@[i as int].next,
                old(self).cell(*collider) == Some(idx as int),
                V::obeys_eq_spec() ==> first_with(old(self)@[idx as int], *value, 0) == j,
                j < old(self)@[idx as int].len(),
            decreases j - p,
        {
            let s = match cur {
                Some(s) => s,
                None => {
                    return false;
                },
            };
            assert(chain[p] == s);
            let next = self.items[s as usize].next;
            let mut is_before = false;
            if let Some(n) = next {
                if n == i {
                    is_before = true;
                }
            }
            if is_before {
                proof {
                    assert(chain[p] == place(self.chains@, idx as int, p));
                    assert(chain[p + 1] == place(self.chains@, idx as int, p + 1));
                    assert(chain[j] == place(self.chains@, idx as int, j));
                    assert(p + 1 == j);
                }
                let ghost before = self.items@;
                self.items[s as usize].next = after;
                proof {
                    lemma_unlink(
                        before,
                        self.grid@,
                        self.free@,
                        self.chains@,
                        self.size,
                        self.scale,
                        idx as int,
                        j,
                        self.items@,
                        self.grid@,
                    );
                    lemma_unlink_view(
                        before,
                        self.grid@,
                        self.free@,
                        self.chains@,
                        self.size,
                        self.scale,
                        idx as int,
                        j,
                        self.items@,
                        self.grid@,
                    );
                }
                self.free.push(i);
                self.chains = Ghost(self.chains@.update(idx as int, chain.remove(j)));
                return true;
            }
            proof {
                if p + 1 == j {
                    assert(next == Some(i));
                }
                p = p + 1;
            }
            cur = next;
        }
    }
}

impl<C: Center<Point2>, V: PartialEq + Copy> Uniform2D<C, V> {
    /// Moves the first item with the value `value` in the cell of the shape
    /// `from` to the cell of the shape `to`, and gives it that shape. Where
    /// `to` is off the grid the item is only taken out; where `from` is, a
    /// new item is put in; where the cell has no item with that value,
    /// nothing is taken out. The arena needs room only where an item may be
    /// put into another cell.
    pub fn update(&mut self, from: &C, to: C, value: &V)
        requires
            old(self).wf(),
            old(self).cell(to) is Some && old(self).cell(*from) != old(self).cell(to) ==> old(
                self,
            ).spare() > 0 || old(self).slots() < i32::MAX,
        ensures
            final(self).wf(),
            final(self).side() == old(self).side(),
            final(self).reach() == old(self).reach(),
            V::obeys_eq_spec() ==> final(self)@ == cells_update(
                old(self)@,
                old(self).cell(*from),
                old(self).cell(to),
                to,
                *value,
            ),
    {
        let new_idx = match self.idx(&to) {
            Some(idx) => idx,
            None => {
                self.remove(from, value);
                return ;
            },
        };
        let old_idx = match self.idx(from) {
            Some(idx) => idx,
            None => {
                self.insert(to, *value);
                return ;
            },
        };
        if old_idx != new_idx {
            self.remove(from, value);
            self.insert(to, *value);
            return ;
        }
        let (found, Ghost(j)) = self.find(new_idx, value);
        if let Some(i) = found {
            let ghost before = self.items@;
            proof {
                assert(linked(self.items@, self.grid@[new_idx as int], self.chains@[new_idx as int]));
                assert(self.chains@[new_idx as int][j] == place(self.chains@, new_idx as int, j));
            }
            self.items[i as usize].collider = to;
            proof {
                lemma_reshape(
                    before,
                    self.grid@,
                    self.free@,
                    self.chains@,
                    self.size,
                    self.scale,
                    new_idx as int,
                    j,
                    self.items@,
                    to,
                );
            }
        }
    }
}

impl<C: Center<Point2> + Copy, V: Copy> Uniform2D<C, V> {
    /// A grid with the same cells and the same entries in a fresh arena
    /// without free places. In each cell the entries come out in the
    /// opposite order.
    pub fn defrag(&self) -> (g: Uniform2D<C, V>)
        requires
            self.wf(),
        ensures
            g.wf(),
            g.side() == self.side(),
            g.reach() == self.reach(),
            g@.len() == self@.len(),
            forall|c: int| 0 <= c < self@.len() ==> #[trigger] g@[c] == self@[c].reverse(),
            g.spare() == 0,
            g.slots() == self.entries().len(),
    {
        let mut new: Uniform2D<C, V> = Uniform2D::new(self.size, self.scale);
        let mut idx: usize = 0;
        proof {
            lemma_flat_len(self.items@, self.chains@, 0);
            lemma_total_grows(self.chains@, 0, self.chains@.len());
        }
        while idx < self.grid.len()
            invariant
                self.wf(),
                new.wf(),
                idx <= self.grid@.len(),
                new.size == self.size,
                new.scale == self.scale,
                new@.len() == self@.len(),
                self@.len() == self.grid@.len(),
                new.free@.len() == 0,
                new.items@.len() == total(self.chains@, idx as nat),
                forall|c: int| 0 <= c < idx ==> #[trigger] new@[c] == self@[c].reverse(),
                forall|c: int| idx <= c < self@.len() ==> (#[trigger] new@[c]).len() == 0,
            decreases self.grid@.len() - idx,
        {
            let ghost chain = self.chains@[idx as int];
            let ghost mut j: int = 0;
            let mut head = self.grid[idx];
            proof {
                assert(linked(self.items@, self.grid@[idx as int], chain));
                assert(new@[idx as int] =~= self@[idx as int].take(0).reverse());
                lemma_total_grows(self.chains@, (idx + 1) as nat, self.chains@.len());
            }
            loop
                invariant
                    self.wf(),
                    new.wf(),
                    idx < self.grid@.len(),
                    new.size == self.size,
                    new.scale == self.scale,
                    new@.len() == self@.len(),
                    self@.len() == self.grid@.len(),
                    chain == self.chains@[idx as int],
                    linked(self.items@, self.grid@[idx as int], chain),
                    0 <= j <= chain.len(),
                    head == link_at(chain, j),
                    new.free@.len() == 0,
                    new.items@.len() == total(self.chains@, idx as nat) + j,
                    total(self.chains@, (idx + 1) as nat) <= self.items@.len() <= i32::MAX,
                    forall|c: int| 0 <= c < idx ==> #[trigger] new@[c] == self@[c].reverse(),
                    new@[idx as int] == self@[idx as int].take(j).reverse(),
                    forall|c: int| idx < c < self@.len() ==> (#[trigger] new@[c]).len() == 0,
                ensures
                    j == chain.len(),
                decreases chain.len() - j,
            {
                let at = match head {
                    Some(at) => at,
                    None => {
                        break ;
                    },
                };
                proof {
                    assert(chain[j] == at);
                    assert(chain[j] == place(self.chains@, idx as int, j));
                }
                let item = &self.items[at as usize];
                let ghost before = new@;
                new.insert(item.collider, item.value);
                proof {
                    let entry = (item.collider, item.value);
                    assert(self@[idx as int][j] == entry);
                    assert(self@[idx as int].take(j + 1).reverse() =~= seq![entry] + self@[idx as int].take(
                        j,
                    ).reverse());
                    j = j + 1;
                }
                head = item.next;
            }
            proof {
                assert(self@[idx as int].take(chain.len() as int) =~= self@[idx as int]);
            }
            idx += 1;
        }
        new
    }
}

impl<C: Center<Point2> + Copy, V: Copy> Clone for Uniform2D<C, V> {
    /// A copy of the grid with an arena of its own.
    fn clone(&self) -> (copy: Uniform2D<C, V>)
        ensures
            copy@ == self@,
            copy.wf() == self.wf(),
            copy.side() == self.side(),
            copy.reach() == self.reach(),
            copy.slots() == self.slots(),
            copy.spare() == self.spare(),
    {
        let mut items: Vec<Item<C, V>> = Vec::new();
        let mut i: usize = 0;
        while i < self.items.len()
            invariant
                i <= self.items@.len(),
                items@ == self.items@.take(i as int),
            decreases self.items@.len() - i,
        {
            let item = &self.items[i];
            items.push(Item { next: item.next, collider: item.collider, value: item.value });
            assert(self.items@.take(i + 1) =~= self.items@.take(i as int).push(self.items@[i as int]));
            i += 1;
        }
        assert(self.items@.take(self.items@.len() as int) =~= self.items@);
        let mut free: Vec<i32> = Vec::new();
        let mut i: usize = 0;
        while i < self.free.len()
            invariant
                i <= self.free@.len(),
                free@ == self.free@.take(i as int),
            decreases self.free@.len() - i,
        {
            free.push(self.free[i]);
            assert(self.free@.take(i + 1) =~= self.free@.take(i as int).push(self.free@[i as int]));
            i += 1;
        }
        assert(self.free@.take(self.free@.len() as int) =~= self.free@);
        let mut grid: Vec<Option<i32>> = Vec::new();
        let mut i: usize = 0;
        while i < self.grid.len()
            invariant
                i <= self.grid@.len(),
                grid@ == self.grid@.take(i as int),
            decreases self.grid@.len() - i,
        {
            grid.push(self.grid[i]);
            assert(self.grid@.take(i + 1) =~= self.grid@.take(i as int).push(self.grid@[i as int]));
            i += 1;
        }
        assert(self.grid@.take(self.grid@.len() as int) =~= self.grid@);
        Uniform2D { scale: self.scale, size: self.size, items, free, grid, chains: Ghost(self.chains@) }
    }
}

/// The number of entries of the cells from `from` on is the number of
/// items in their chains.
proof fn lemma_flat_len<C, V>(items: Seq<Item<C, V>>, chains: Seq<Seq<int>>, from: nat)
    requires
        from <= chains.len(),
    ensures
        flat_from(cells_view(items, chains), from).len() + total(chains, from) == total(
            chains,
            chains.len(),
        ),
    decreases chains.len() - from,
{
    if from < chains.len() {
        lemma_flat_len(items, chains, from + 1);
    }
}

/// A walk through all entries of a grid, cell by cell.
pub struct Uniform2DIterator<'a, C, V> {
    grid: &'a Uniform2D<C, V>,
    idx: usize,
    head: Option<i32>,
    at: Ghost<int>,
}

impl<'a, C: Center<Point2>, V> Uniform2DIterator<'a, C, V> {
    /// The grid that is walked through.
    pub closed spec fn grid(&self) -> Uniform2D<C, V> {
        *self.grid
    }

    /// The walk stands in the chain of a cell of the grid, or between two
    /// chains.
    pub closed spec fn wf(&self) -> bool {
        &&& self.grid.wf()
        &&& self.idx <= self.grid.grid@.len()
        &&& self.head is Some ==> {
            &&& self.idx > 0
            &&& 0 <= self.at@ < self.grid.chains@[self.idx - 1].len()
        }
        &&& self.head is Some ==> self.head == link_at(self.grid.chains@[self.idx - 1], self.at@)
    }

    /// What the calls of `next` will return, one after another.
    pub closed spec fn remaining(&self) -> Seq<(C, V)> {
        let rest = flat_from(self.grid@, self.idx as nat);
        if self.head is Some {
            self.grid@[self.idx - 1].skip(self.at@) + rest
        } else {
            rest
        }
    }

    /// The next entry, or `None` when there is none left.
    pub fn next(&mut self) -> (found: Option<(&'a C, &'a V)>)
        requires
            old(self).wf(),
        ensures
            final(self).wf(),
            final(self).grid() == old(self).grid(),
            match found {
                None => old(self).remaining().len() == 0 && final(self).remaining().len() == 0,
                Some((shape, value)) => {
                    &&& old(self).remaining().len() > 0
                    &&& (*shape, *value) == old(self).remaining()[0]
                    &&& final(self).remaining() == old(self).remaining().skip(1)
                },
            },
    {
        let grid: &'a Uniform2D<C, V> = self.grid;
        loop
            invariant
                self.wf(),
                self.grid == grid,
                old(self).grid == grid,
                self.remaining() == old(self).remaining(),
            decreases grid.grid@.len() - self.idx, (if self.head is Some { 1nat } else { 0nat }),
        {
            if let Some(at) = self.head {
                let ghost chain = grid.chains@[self.idx - 1];
                let ghost j = self.at@;
                let ghost entries = grid@[self.idx - 1];
                proof {
                    assert(linked(grid.items@, grid.grid@[self.idx - 1], chain));
                    assert(chain[j] == at);
                    assert(entries.skip(j)[0] == entries[j]);
                }
                let item: &'a Item<C, V> = &grid.items[at as usize];
                self.head = item.next;
                self.at = Ghost(j + 1);
                proof {
                    let rest = flat_from(grid@, self.idx as nat);
                    if self.head is Some {
                        assert((entries.skip(j) + rest).skip(1) =~= entries.skip(j + 1) + rest);
                    } else {
                        assert(entries.skip(j) =~= seq![entries[j]]);
                        assert((entries.skip(j) + rest).skip(1) =~= rest);
                    }
                }
                return Some((&item.collider, &item.value));
            }
            if self.idx < grid.grid.len() {
                proof {
                    let chain = grid.chains@[self.idx as int];
                    assert(linked(grid.items@, grid.grid@[self.idx as int], chain));
                    let entries = grid@[self.idx as int];
                    assert(entries.skip(0) =~= entries);
                    if chain.len() == 0 {
                        assert(entries + flat_from(grid@, (self.idx + 1) as nat) =~= flat_from(
                            grid@,
                            (self.idx + 1) as nat,
                        ));
                    }
                }
                self.head = grid.grid[self.idx];
                self.at = Ghost(0);
                self.idx += 1;
            } else {
                return None;
            }
        }
    }
}

/// A walk through the entries near a query shape that the shape overlaps.
pub struct Uniform2DCollideIterator<'a, C, V> {
    grid: &'a Uniform2D<C, V>,
    collide: &'a C,
    x: i8,
    y: i8,
    cell: Option<i32>,
    at: Ghost<(int, int)>,
}

/// What a walk around the cell in column `cx` and row `cy` still gives
/// out when it stands in the cell `k` of the block, at the entry `at.1` of
/// the chain of cell `at.0`, or past the end of that chain.
#[verifier::opaque]
spec fn ahead<C: Intersects<C>, V>(
    cells: Seq<Seq<(C, V)>>,
    size: i32,
    cx: int,
    cy: int,
    query: C,
    k: int,
    at: Option<(int, int)>,
) -> Seq<(C, V)> {
    let rest = scan(cells, size, cx, cy, query, k + 1);
    match at {
        Some((c, j)) => sift(cells[c], query, j as nat) + rest,
        None => rest,
    }
}

/// One step along a chain: the entry, where the query overlaps it, and
/// then what comes after it.
proof fn lemma_ahead_walk<C: Intersects<C>, V>(
    cells: Seq<Seq<(C, V)>>,
    size: i32,
    cx: int,
    cy: int,
    query: C,
    k: int,
    c: int,
    j: int,
)
    requires
        0 <= j < cells[c].len(),
    ensures
        ahead(cells, size, cx, cy, query, k, Some((c, j))) == (if query.overlaps(&cells[c][j].0) {
            seq![cells[c][j]]
        } else {
            Seq::empty()
        }) + ahead(
            cells,
            size,
            cx,
            cy,
            query,
            k,
            if j + 1 < cells[c].len() {
                Some((c, j + 1))
            } else {
                None
            },
        ),
{
    reveal(ahead);
    let rest = scan(cells, size, cx, cy, query, k + 1);
    let later = sift(cells[c], query, (j + 1) as nat);
    if j + 1 >= cells[c].len() {
        assert(later =~= Seq::<(C, V)>::empty());
    }
    if query.overlaps(&cells[c][j].0) {
        assert((seq![cells[c][j]] + later) + rest =~= seq![cells[c][j]] + (later + rest));
        assert(later + rest =~= if j + 1 < cells[c].len() {
            later + rest
        } else {
            rest
        });
    } else {
        assert(later + rest =~= Seq::<(C, V)>::empty() + (if j + 1 < cells[c].len() {
            later + rest
        } else {
            rest
        }));
    }
}

/// The step from the end of a chain to the next cell of the block.
proof fn lemma_ahead_turn<C: Intersects<C>, V>(
    cells: Seq<Seq<(C, V)>>,
    size: i32,
    cx: int,
    cy: int,
    query: C,
    k: int,
)
    requires
        -1 <= k,
    ensures
        k >= 8 ==> ahead(cells, size, cx, cy, query, k, None) == Seq::<(C, V)>::empty(),
        k < 8 ==> ahead(cells, size, cx, cy, query, k, None) == ahead(
            cells,
            size,
            cx,
            cy,
            query,
            k + 1,
            match near(size, cx, cy, k + 1) {
                Some(c) => if cells[c].len() > 0 {
                    Some((c, 0int))
                } else {
                    None
                },
                None => None,
            },
        ),
{
    reveal(ahead);
    if k < 8 {
        let rest = scan(cells, size, cx, cy, query, k + 2);
        match near(size, cx, cy, k + 1) {
            Some(c) => {
                if cells[c].len() == 0 {
                    assert(sift(cells[c], query, 0) + rest =~= rest);
                }
            },
            None => {
                assert(Seq::<(C, V)>::empty() + rest =~= rest);
            },
        }
    }
}

impl<'a, C: Center<Point2> + Intersects<C>, V> Uniform2DCollideIterator<'a, C, V> {
    /// The grid that is walked through.
    pub closed spec fn grid(&self) -> Uniform2D<C, V> {
        *self.grid
    }

    /// The shape that is looked for.
    pub closed spec fn query(&self) -> C {
        *self.collide
    }

    /// The number of the cell of the block in which the walk stands: `-1`
    /// before the first.
    spec fn step(&self) -> int {
        (self.y + 1) * 3 + (self.x + 1)
    }

    /// The walk stands in the chain of a cell of the block, or between two
    /// chains.
    pub closed spec fn wf(&self) -> bool {
        &&& self.grid.wf()
        &&& -1 <= self.y <= 1
        &&& -2 <= self.x <= 1
        &&& self.x == -2 ==> self.y == -1
        &&& self.cell is Some ==> {
            let (c, j) = self.at@;
            &&& 0 <= c < self.grid.chains@.len()
            &&& 0 <= j < self.grid.chains@[c].len()
            &&& self.cell == link_at(self.grid.chains@[c], j)
        }
    }

    /// What the calls of `next` will return, one after another.
    pub closed spec fn remaining(&self) -> Seq<(C, V)> {
        match self.grid.cell(*self.collide) {
            None => Seq::empty(),
            Some(_) => {
                let centre = self.collide.midpoint();
                ahead(
                    self.grid@,
                    self.grid.size,
                    offset_of(self.grid.size, self.grid.scale, centre.x),
                    offset_of(self.grid.size, self.grid.scale, centre.y),
                    *self.collide,
                    self.step(),
                    if self.cell is Some {
                        Some(self.at@)
                    } else {
                        None
                    },
                )
            },
        }
    }

    /// The next entry near the query shape that the shape overlaps, or
    /// `None` when there is none left. After `None`, every further call
    /// returns `None`.
    pub fn next(&mut self) -> (found: Option<(&'a C, &'a V)>)
        requires
            old(self).wf(),
        ensures
            final(self).wf(),
            final(self).grid() == old(self).grid(),
            final(self).query() == old(self).query(),
            match found {
                None => old(self).remaining().len() == 0 && final(self).remaining().len() == 0,
                Some((shape, value)) => {
                    &&& old(self).remaining().len() > 0
                    &&& (*shape, *value) == old(self).remaining()[0]
                    &&& final(self).remaining() == old(self).remaining().skip(1)
                },
            },
    {
        let grid: &'a Uniform2D<C, V> = self.grid;
        let collide: &'a C = self.collide;
        let point = collide.center();
        let (cx, cy) = match (grid.get_offset(point.x), grid.get_offset(point.y)) {
            (Some(cx), Some(cy)) => (cx, cy),
            _ => {
                return None;
            },
        };
        let ghost cells = grid@;
        loop
            invariant
                self.wf(),
                self.grid == grid,
                self.collide == collide,
                old(self).grid == grid,
                old(self).collide == collide,
                cells == grid@,
                cells.len() == grid.chains@.len(),
                grid.cell(*collide) is Some,
                cx == offset_of(grid.size, grid.scale, collide.midpoint().x),
                cy == offset_of(grid.size, grid.scale, collide.midpoint().y),
                0 <= cx < grid.size,
                0 <= cy < grid.size,
                self.remaining() == old(self).remaining(),
            decreases
                    8 - self.step(),
                    (if self.cell is Some {
                        self.grid.chains@[self.at@.0].len() - self.at@.1
                    } else {
                        0
                    }),
        {
            let ghost k = self.step();
            if let Some(at) = self.cell {
                let ghost (c, j) = self.at@;
                proof {
                    let chain = grid.chains@[c];
                    assert(linked(grid.items@, grid.grid@[c], chain));
                    assert(chain[j] == at);
                    assert(cells[c][j] == (grid.items@[at as int].collider, grid.items@[at as int].value));
                    assert(cells[c].len() == chain.len());
                    lemma_ahead_walk(cells, grid.size, cx as int, cy as int, *collide, k, c, j);
                }
                let item: &'a Item<C, V> = &grid.items[at as usize];
                self.cell = item.next;
                self.at = Ghost((c, j + 1));
                if collide.intersect(&item.collider) {
                    proof {
                        let after = self.remaining();
                        assert((seq![cells[c][j]] + after).skip(1) =~= after);
                    }
                    return Some((&item.collider, &item.value));
                }
                proof {
                    let after = self.remaining();
                    assert(Seq::<(C, V)>::empty() + after =~= after);
                }
            } else {
                proof {
                    lemma_ahead_turn(cells, grid.size, cx as int, cy as int, *collide, k);
                }
                if self.x == 1 && self.y == 1 {
                    return None;
                }
                self.x += 1;
                if self.x == 2 {
                    self.x = -1;
                    self.y += 1;
                }
                assert(self.step() == k + 1);
                assert((k + 1) % 3 - 1 == self.x && (k + 1) / 3 - 1 == self.y);
                let x = grid.in_range(cx as i64 + self.x as i64);
                let y = grid.in_range(cy as i64 + self.y as i64);
                match (x, y) {
                    (Some(x), Some(y)) => {
                        proof {
                            lemma_cell_bounds(x as int, y as int, grid.size as int);
                        }
                        let c = (x * grid.size + y) as usize;
                        self.cell = grid.grid[c];
                        self.at = Ghost((c as int, 0));
                        proof {
                            assert(linked(grid.items@, grid.grid@[c as int], grid.chains@[c as int]));
                            assert(near(grid.size, cx as int, cy as int, k + 1) == Some(c as int));
                            assert(cells[c as int].len() == grid.chains@[c as int].len());
                        }
                    },
                    _ => {
                        self.cell = None;
                        proof {
                            assert(near(grid.size, cx as int, cy as int, k + 1) is None);
                        }
                    },
                }
            }
        }
    }
}

impl<C: Center<Point2> + Intersects<C>, V> Uniform2D<C, V> {
    /// What a query with a shape finds: nothing where the center of the
    /// shape is off the grid; else, in the three by three cells around the
    /// cell of the center, row by row, the entries that the shape overlaps.
    pub open spec fn hits(&self, query: C) -> Seq<(C, V)> {
        match self.cell(query) {
            None => Seq::empty(),
            Some(_) => scan(
                self@,
                self.side(),
                offset_of(self.side(), self.reach(), query.midpoint().x),
                offset_of(self.side(), self.reach(), query.midpoint().y),
                query,
                0,
            ),
        }
    }

    /// A walk through the entries near a shape that the shape overlaps.
    pub fn collision_iter<'a>(&'a self, collide: &'a C) -> (iter: Uniform2DCollideIterator<'a, C, V>)
        requires
            self.wf(),
        ensures
            iter.wf(),
            iter.grid() == *self,
            iter.query() == *collide,
            iter.remaining() == self.hits(*collide),
    {
        proof {
            reveal(ahead);
        }
        Uniform2DCollideIterator { grid: self, x: -2, y: -1, collide, cell: None, at: Ghost((0, 0)) }
    }
}

impl<C: Center<Point2>, V> Uniform2D<C, V> {
    /// A walk through all entries, cell by cell.
    pub fn iter<'a>(&'a self) -> (iter: Uniform2DIterator<'a, C, V>)
        requires
            self.wf(),
        ensures
            iter.wf(),
            iter.grid() == *self,
            iter.remaining() == self.entries(),
    {
        Uniform2DIterator { grid: self, idx: 0, head: None, at: Ghost(0) }
    }
}

/// A coordinate below the low edge of the grid is in no row or column.
proof fn lemma_negative_offset(size: int, shifted: int, width: int)
    requires
        size >= 0,
        shifted < 0,
        width > 0,
    ensures
        size * shifted / width < 0 || size == 0,
{
    if size > 0 {
        assert(size * shifted < 0) by (nonlinear_arith)
            requires
                size > 0,
                shifted < 0,
        ;
        let n = size * shifted;
        assert(n / width < 0) by (nonlinear_arith)
            requires
                n < 0,
                width > 0,
        ;
    }
}

/// The product under the division of a row or column fits in 64 bits.
proof fn lemma_offset_bounds(size: int, shifted: int, width: int)
    requires
        0 <= size <= i32::MAX,
        0 <= shifted <= 0x1_0000_0000,
        width > 0,
    ensures
        0 <= size * shifted <= 0x7fff_ffff * 0x1_0000_0000,
        0 <= size * shifted / width,
{
    assert(0 <= size * shifted <= 0x7fff_ffff * 0x1_0000_0000) by (nonlinear_arith)
        requires
            0 <= size <= 0x7fff_ffff,
            0 <= shifted <= 0x1_0000_0000,
    ;
    vstd::arithmetic::div_mod::lemma_div_pos_is_pos(size * shifted, width);
}

/// A column and a row of the grid give an index into its cells.
proof fn lemma_cell_bounds(x: int, y: int, size: int)
    requires
        0 <= x < size,
        0 <= y < size,
    ensures
        0 <= x * size + y < size * size,
        0 <= x * size <= size * size,
{
    assert(0 <= x * size && x * size + size <= size * size) by (nonlinear_arith)
        requires
            0 <= x,
            x + 1 <= size,
    ;
}

/// The values of a chain, each as often as it is held.
pub open spec fn values_of<C, V>(chain: Seq<(C, V)>) -> Multiset<V> {
    chain.map_values(|e: (C, V)| e.1).to_multiset()
}

/// The values of the cells `from`, `from + 1`, ..., each as often as it is
/// held.
pub open spec fn values_from<C, V>(cells: Seq<Seq<(C, V)>>, from: nat) -> Multiset<V> {
    values_of(flat_from(cells, from))
}

/// How many of the entries at and after `from` have the value `value`.
pub open spec fn holders<C, V: PartialEq>(chain: Seq<(C, V)>, value: V, from: nat) -> nat
    decreases chain.len() - from,
{
    if from >= chain.len() {
        0
    } else if chain[from as int].1.eq_spec(&value) {
        1 + holders(chain, value, from + 1)
    } else {
        holders(chain, value, from + 1)
    }
}

proof fn lemma_values_concat<C, V>(a: Seq<(C, V)>, b: Seq<(C, V)>)
    ensures
        values_of(a + b) == values_of(a).add(values_of(b)),
{
    let f = |e: (C, V)| e.1;
    assert((a + b).map_values(f) =~= a.map_values(f) + b.map_values(f));
    lemma_multiset_commutative(a.map_values(f), b.map_values(f));
}

/// What is added to both of two multisets can be taken away again.
proof fn lemma_cancel<V>(a: Multiset<V>, b: Multiset<V>, m: Multiset<V>, n: Multiset<V>)
    requires
        a.add(m) == b.add(n),
        m == n,
    ensures
        a == b,
{
    broadcast use vstd::multiset::group_multiset_axioms;

    assert forall|v: V| a.count(v) == b.count(v) by {
        assert(a.add(m).count(v) == a.count(v) + m.count(v));
        assert(b.add(n).count(v) == b.count(v) + n.count(v));
    }
    assert(a =~= b);
}

/// Changing the chain of one cell changes the values of the grid by the
/// values of that chain.
proof fn lemma_values_update<C, V>(cells: Seq<Seq<(C, V)>>, c: int, chain: Seq<(C, V)>, from: nat)
    requires
        from <= c < cells.len(),
    ensures
        values_from(cells.update(c, chain), from).add(values_of(cells[c])) == values_from(
            cells,
            from,
        ).add(values_of(chain)),
    decreases cells.len() - from,
{
    broadcast use vstd::multiset::group_multiset_axioms;

    let after = cells.update(c, chain);
    let tail = flat_from(cells, from + 1);
    let tail2 = flat_from(after, from + 1);
    assert(flat_from(cells, from) == cells[from as int] + tail);
    assert(flat_from(after, from) == after[from as int] + tail2);
    lemma_values_concat(cells[from as int], tail);
    lemma_values_concat(after[from as int], tail2);
    let x = values_of(cells[c]);
    let y = values_of(chain);
    if from < c {
        lemma_values_update(cells, c, chain, from + 1);
        let head = values_of(cells[from as int]);
        assert forall|v: V|
            values_from(after, from).add(x).count(v) == values_from(cells, from).add(y).count(v) by {
            assert(values_of(tail2).add(x).count(v) == values_of(tail).add(y).count(v));
            assert(head.add(values_of(tail2)).add(x).count(v) == head.count(v) + values_of(tail2).count(
                v,
            ) + x.count(v));
            assert(head.add(values_of(tail)).add(y).count(v) == head.count(v) + values_of(tail).count(v)
                + y.count(v));
        }
        assert(values_from(after, from).add(x) =~= values_from(cells, from).add(y));
    } else {
        lemma_flat_same(cells, after, from + 1);
        assert forall|v: V|
            values_from(after, from).add(x).count(v) == values_from(cells, from).add(y).count(v) by {
            assert(y.add(values_of(tail)).add(x).count(v) == y.count(v) + values_of(tail).count(v)
                + x.count(v));
            assert(x.add(values_of(tail)).add(y).count(v) == x.count(v) + values_of(tail).count(v)
                + y.count(v));
        }
        assert(values_from(after, from).add(x) =~= values_from(cells, from).add(y));
    }
}

proof fn lemma_flat_same<C, V>(a: Seq<Seq<(C, V)>>, b: Seq<Seq<(C, V)>>, from: nat)
    requires
        a.len() == b.len(),
        forall|c: int| from <= c < a.len() ==> a[c] == b[c],
    ensures
        flat_from(a, from) == flat_from(b, from),
    decreases a.len() - from,
{
    if from < a.len() {
        lemma_flat_same(a, b, from + 1);
    }
}

/// Where at most one entry of a chain has a value, none has it once the
/// first was taken out.
proof fn lemma_holder_gone<C, V: PartialEq>(chain: Seq<(C, V)>, value: V, from: nat)
    requires
        holders(chain, value, from) <= 1,
        from <= chain.len(),
    ensures
        ({
            let at = first_with(chain, value, from);
            &&& from <= at <= chain.len()
            &&& at < chain.len() ==> first_with(chain.remove(at as int), value, from) == chain.len() - 1
        }),
    decreases chain.len() - from,
{
    if from < chain.len() {
        if chain[from as int].1.eq_spec(&value) {
            lemma_no_holder(chain, value, from + 1);
            let rest = chain.remove(from as int);
            lemma_first_with_shift(chain, rest, value, from + 1, from);
        } else {
            lemma_holder_gone(chain, value, from + 1);
            let at = first_with(chain, value, from);
            if at < chain.len() {
                let rest = chain.remove(at as int);
                assert(rest[from as int] == chain[from as int]);
            }
        }
    }
}

/// Where no entry has the value, the search runs to the end.
proof fn lemma_no_holder<C, V: PartialEq>(chain: Seq<(C, V)>, value: V, from: nat)
    requires
        holders(chain, value, from) == 0,
        from <= chain.len(),
    ensures
        first_with(chain, value, from) == chain.len(),
    decreases chain.len() - from,
{
    if from < chain.len() {
        lemma_no_holder(chain, value, from + 1);
    }
}

/// The search in a chain that is another chain moved down by one place.
proof fn lemma_first_with_shift<C, V: PartialEq>(
    chain: Seq<(C, V)>,
    rest: Seq<(C, V)>,
    value: V,
    from: nat,
    to: nat,
)
    requires
        from == to + 1,
        from <= chain.len(),
        rest.len() == chain.len() - 1,
        forall|i: int| to <= i < rest.len() ==> rest[i] == chain[i + 1],
        first_with(chain, value, from) == chain.len(),
    ensures
        first_with(rest, value, to) == rest.len(),
    decreases chain.len() - from,
{
    if from < chain.len() {
        assert(rest[to as int] == chain[from as int]);
        lemma_first_with_shift(chain, rest, value, from + 1, to + 1);
    }
}

/// Taking out a value a second time: where at most one entry of the cell
/// had the value, the cell has none left after the first time, and the
/// second time nothing changes.
pub proof fn lemma_remove_again<C, V: PartialEq>(cells: Seq<Seq<(C, V)>>, c: int, value: V)
    requires
        0 <= c < cells.len(),
        holders(cells[c], value, 0) <= 1,
    ensures
        ({
            let once = cells_remove(cells, c, value);
            &&& first_with(once[c], value, 0) == once[c].len()
            &&& cells_remove(once, c, value) == once
        }),
{
    lemma_holder_gone(cells[c], value, 0);
}

/// Moving a shape within the grid keeps the values: where both shapes have
/// their center on the grid and the cell of the first holds the value, the
/// grid holds the same values after the move, each as often as before.
pub proof fn lemma_update_keeps_values<C, V: PartialEq>(
    cells: Seq<Seq<(C, V)>>,
    from: int,
    to: int,
    shape: C,
    value: V,
)
    requires
        0 <= from < cells.len(),
        0 <= to < cells.len(),
        first_with(cells[from], value, 0) < cells[from].len(),
        cells[from][first_with(cells[from], value, 0) as int].1 == value,
    ensures
        values_from(cells_update(cells, Some(from), Some(to), shape, value), 0) == values_from(
            cells,
            0,
        ),
{
    broadcast use vstd::multiset::group_multiset_axioms;

    let f = |e: (C, V)| e.1;
    let chain = cells[from];
    let at = first_with(chain, value, 0) as int;
    if from == to {
        let chain2 = chain.update(at, (shape, chain[at].1));
        assert(chain2.map_values(f) =~= chain.map_values(f));
        lemma_values_update(cells, from, chain2, 0);
        lemma_cancel(
            values_from(cells.update(from, chain2), 0),
            values_from(cells, 0),
            values_of(chain),
            values_of(chain2),
        );
    } else {
        let short = chain.remove(at);
        let cells1 = cells.update(from, short);
        lemma_values_update(cells, from, short, 0);
        assert(short.map_values(f) =~= chain.map_values(f).remove(at));
        to_multiset_remove(chain.map_values(f), at);
        assert(chain.map_values(f)[at] == value);
        assert(values_of(chain).count(value) > 0) by {
            assert(chain.map_values(f).contains(value));
            vstd::seq_lib::to_multiset_contains(chain.map_values(f), value);
        }
        let one = Multiset::singleton(value);
        assert(values_of(short) == values_of(chain).sub(one));
        assert(values_of(chain) =~= values_of(short).add(one));
        let long = seq![(shape, value)] + cells1[to];
        let cells2 = cells1.update(to, long);
        lemma_values_update(cells1, to, long, 0);
        lemma_values_concat(seq![(shape, value)], cells1[to]);
        assert(seq![(shape, value)].map_values(f) =~= Seq::<V>::empty().push(value));
        to_multiset_build(Seq::<V>::empty(), value);
        vstd::seq_lib::to_multiset_len(Seq::<V>::empty());
        assert(Seq::<V>::empty().to_multiset() =~= Multiset::<V>::empty()) by {
            assert(Seq::<V>::empty().to_multiset().len() == 0);
            vstd::multiset::lemma_multiset_empty_len(Seq::<V>::empty().to_multiset());
        }
        assert(values_of(seq![(shape, value)]) =~= one);
        assert(values_of(long) =~= values_of(cells1[to]).add(one));
        let v0 = values_from(cells, 0);
        let v1 = values_from(cells1, 0);
        let v2 = values_from(cells2, 0);
        assert forall|v: V| v2.count(v) == v0.count(v) by {
            assert(v1.add(values_of(chain)).count(v) == v0.add(values_of(short)).count(v));
            assert(v2.add(values_of(cells1[to])).count(v) == v1.add(values_of(long)).count(v));
            assert(v1.add(values_of(chain)).count(v) == v1.count(v) + values_of(chain).count(v));
            assert(v0.add(values_of(short)).count(v) == v0.count(v) + values_of(short).count(v));
            assert(v2.add(values_of(cells1[to])).count(v) == v2.count(v) + values_of(cells1[to]).count(
                v,
            ));
            assert(v1.add(values_of(long)).count(v) == v1.count(v) + values_of(long).count(v));
            assert(values_of(short).add(one).count(v) == values_of(short).count(v) + one.count(v));
            assert(values_of(cells1[to]).add(one).count(v) == values_of(cells1[to]).count(v)
                + one.count(v));
        }
        assert(v2 =~= v0);
    }
}

} // verus!
