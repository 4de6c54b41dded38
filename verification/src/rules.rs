//! The mathematical model of a generation and of the transition rule.
//!
//! A generation is a sequence of columns, each a sequence of liveness flags:
//! `g[x][y]` is the cell at column `x`, row `y`. Nothing wraps around: a
//! position outside the grid holds no cell and counts as dead.

use vstd::prelude::*;

verus! {

/// A rectangular grid: at least one column, at least one row, and all columns
/// of the same height.
pub open spec fn is_grid(g: Seq<Seq<bool>>) -> bool {
    &&& g.len() >= 1
    &&& g[0].len() >= 1
    &&& forall|x: int| 0 <= x < g.len() ==> #[trigger] g[x].len() == g[0].len()
}

/// The number of columns.
pub open spec fn grid_width(g: Seq<Seq<bool>>) -> nat {
    g.len()
}

/// The number of rows, read off the first column.
pub open spec fn grid_height(g: Seq<Seq<bool>>) -> nat {
    g[0].len()
}

/// The liveness of the cell at `(x, y)`, or `None` where the grid has no cell.
pub open spec fn alive_at(g: Seq<Seq<bool>>, x: int, y: int) -> Option<bool> {
    if 0 <= x < g.len() && 0 <= y < g[x].len() {
        Some(g[x][y])
    } else {
        None
    }
}

/// 1 for a live cell at `(x, y)`, 0 for a dead cell and for no cell.
pub open spec fn live(g: Seq<Seq<bool>>, x: int, y: int) -> nat {
    if alive_at(g, x, y) == Some(true) {
        1
    } else {
        0
    }
}

/// The live cells among the eight positions around `(x, y)`.
pub open spec fn neighbor_count(g: Seq<Seq<bool>>, x: int, y: int) -> nat {
    live(g, x - 1, y - 1) + live(g, x - 1, y) + live(g, x - 1, y + 1) + live(g, x, y - 1) + live(
        g,
        x,
        y + 1,
    ) + live(g, x + 1, y - 1) + live(g, x + 1, y) + live(g, x + 1, y + 1)
}

/// The transition rule: a live cell stays alive with two or three live
/// neighbours, a dead cell comes alive with exactly three.
pub open spec fn survives(alive: bool, neighbors: nat) -> bool {
    if alive {
        neighbors == 2 || neighbors == 3
    } else {
        neighbors == 3
    }
}

/// The liveness of the cell at `(x, y)` in the next generation.
pub open spec fn next_alive(g: Seq<Seq<bool>>, x: int, y: int) -> bool {
    survives(g[x][y], neighbor_count(g, x, y))
}

/// Column `x` of the next generation.
pub open spec fn next_column(g: Seq<Seq<bool>>, x: int) -> Seq<bool> {
    Seq::new(g[x].len(), |y: int| next_alive(g, x, y))
}

/// The next generation.
pub open spec fn step(g: Seq<Seq<bool>>) -> Seq<Seq<bool>> {
    Seq::new(g.len(), |x: int| next_column(g, x))
}

/// The generation `k` steps after `g`.
pub open spec fn generation_after(g: Seq<Seq<bool>>, k: nat) -> Seq<Seq<bool>>
    decreases k,
{
    if k == 0 {
        g
    } else {
        step(generation_after(g, (k - 1) as nat))
    }
}

/// The next generation of a grid is a grid of the same shape.
pub proof fn lemma_step_keeps_shape(g: Seq<Seq<bool>>)
    requires
        is_grid(g),
    ensures
        is_grid(step(g)),
        grid_width(step(g)) == grid_width(g),
        grid_height(step(g)) == grid_height(g),
{
}

/// Any number of steps leaves the shape of a grid unchanged.
pub proof fn lemma_steps_keep_shape(g: Seq<Seq<bool>>, k: nat)
    requires
        is_grid(g),
    ensures
        is_grid(generation_after(g, k)),
        grid_width(generation_after(g, k)) == grid_width(g),
        grid_height(generation_after(g, k)) == grid_height(g),
    decreases k,
{
    if k > 0 {
        lemma_steps_keep_shape(g, (k - 1) as nat);
        lemma_step_keeps_shape(generation_after(g, (k - 1) as nat));
    }
}

/// One more step after `k` is `k + 1` steps; so is `k` steps after one.
pub proof fn lemma_steps_unfold(g: Seq<Seq<bool>>, k: nat)
    ensures
        generation_after(g, k + 1) == step(generation_after(g, k)),
        generation_after(g, k + 1) == generation_after(step(g), k),
    decreases k,
{
    if k > 0 {
        lemma_steps_unfold(g, (k - 1) as nat);
    }
}

/// A position outside the grid never counts as a live neighbour.
pub proof fn lemma_off_grid_is_dead(g: Seq<Seq<bool>>, x: int, y: int)
    requires
        !(0 <= x < g.len() && 0 <= y < g[x].len()),
    ensures
        alive_at(g, x, y) is None,
        live(g, x, y) == 0,
{
}

/// No cell has more than eight live neighbours.
pub proof fn lemma_neighbor_count_bounded(g: Seq<Seq<bool>>, x: int, y: int)
    ensures
        neighbor_count(g, x, y) <= 8,
{
}

/// The only cell of a grid of one column and one row has no live neighbour.
pub proof fn lemma_single_cell_has_no_neighbors(g: Seq<Seq<bool>>)
    requires
        is_grid(g),
        grid_width(g) == 1,
        grid_height(g) == 1,
    ensures
        neighbor_count(g, 0, 0) == 0,
{
}

/// Just left of the grid and just right of it there is no cell.
pub proof fn lemma_outside_is_absent(g: Seq<Seq<bool>>)
    requires
        is_grid(g),
    ensures
        alive_at(g, -1, 0) is None,
        alive_at(g, grid_width(g) as int, 0) is None,
{
}

/// A grid without a live cell has none in the next generation either.
pub proof fn lemma_dead_grid_stays_dead(g: Seq<Seq<bool>>)
    requires
        is_grid(g),
        forall|x: int, y: int| 0 <= x < g.len() && 0 <= y < g[x].len() ==> !#[trigger] g[x][y],
    ensures
        step(g) == g,
{
    assert forall|x: int| 0 <= x < g.len() implies #[trigger] step(g)[x] == g[x] by {
        assert forall|y: int| 0 <= y < g[x].len() implies next_column(g, x)[y] == g[x][y] by {
            assert(neighbor_count(g, x, y) == 0);
        }
        assert(next_column(g, x) =~= g[x]);
    }
    assert(step(g) =~= g);
}

} // verus!
