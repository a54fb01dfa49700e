//! The rule of the game, stated over mathematical integers and sequences.
//!
//! A grid of side `n` is a sequence of `n * n` booleans in row-major order.
//! Coordinates are any integers: they wrap around both axes, so the grid is a
//! torus, or equally one tile of an infinite periodic plane.

use vstd::prelude::*;
use vstd::arithmetic::div_mod::{
    lemma_add_mod_noop, lemma_fundamental_div_mod, lemma_fundamental_div_mod_converse,
    lemma_mod_add_multiples_vanish, lemma_mod_bound, lemma_mod_twice, lemma_small_mod,
};

verus! {

/// A grid of side `n`: at least one cell per side, `n * n` cells in all.
pub open spec fn well_formed(n: nat, cells: Seq<bool>) -> bool {
    n >= 1 && cells.len() == n * n
}

/// The coordinate `c` brought into `0..n` around the torus: the Euclidean
/// remainder, which is never negative.
pub open spec fn wrap(c: int, n: int) -> int {
    c % n
}

/// The row-major index of the cell at column `x`, row `y`, both wrapped.
pub open spec fn cell_index(n: int, x: int, y: int) -> int {
    wrap(y, n) * n + wrap(x, n)
}

/// Whether the cell at column `x`, row `y` is alive.
pub open spec fn is_alive(cells: Seq<bool>, n: int, x: int, y: int) -> bool {
    cells[cell_index(n, x, y)]
}

/// 1 for a live cell at column `x`, row `y`, 0 for a dead one.
pub open spec fn alive_count(cells: Seq<bool>, n: int, x: int, y: int) -> int {
    if is_alive(cells, n, x, y) {
        1
    } else {
        0
    }
}

/// How many of the eight cells around column `x`, row `y` are alive.
pub open spec fn live_neighbors(cells: Seq<bool>, n: int, x: int, y: int) -> int {
    alive_count(cells, n, x - 1, y - 1) + alive_count(cells, n, x, y - 1) + alive_count(
        cells,
        n,
        x + 1,
        y - 1,
    ) + alive_count(cells, n, x - 1, y) + alive_count(cells, n, x + 1, y) + alive_count(
        cells,
        n,
        x - 1,
        y + 1,
    ) + alive_count(cells, n, x, y + 1) + alive_count(cells, n, x + 1, y + 1)
}

/// The rule: a live cell lives on with two or three live neighbours, a dead
/// cell comes alive with exactly three.
pub open spec fn survives(alive: bool, neighbors: int) -> bool {
    if alive {
        neighbors == 2 || neighbors == 3
    } else {
        neighbors == 3
    }
}

/// The next state of the cell at column `x`, row `y`.
pub open spec fn next_alive(cells: Seq<bool>, n: int, x: int, y: int) -> bool {
    survives(is_alive(cells, n, x, y), live_neighbors(cells, n, x, y))
}

/// The next state of the cell at row-major index `i`.
pub open spec fn next_cell(cells: Seq<bool>, n: int, i: int) -> bool {
    next_alive(cells, n, i % n, i / n)
}

/// The generation that follows `cells` on a grid of side `n`.
pub open spec fn next_generation(n: nat, cells: Seq<bool>) -> Seq<bool> {
    Seq::new(cells.len(), |i: int| next_cell(cells, n as int, i))
}

/// A grid of side `n` with no live cell.
pub open spec fn all_dead(cells: Seq<bool>) -> bool {
    forall|i: int| 0 <= i < cells.len() ==> !cells[i]
}

/// A wrapped coordinate lies on the grid, and a coordinate on the grid wraps
/// to itself.
pub proof fn lemma_wrap_range(c: int, n: int)
    requires
        n >= 1,
    ensures
        0 <= wrap(c, n) < n,
        0 <= c < n ==> wrap(c, n) == c,
{
    lemma_mod_bound(c, n);
    if 0 <= c < n {
        lemma_small_mod(c as nat, n as nat);
    }
}

/// One step left or right of a coordinate on the grid, around the torus.
pub proof fn lemma_wrap_step(c: int, n: int)
    requires
        n >= 1,
        0 <= c < n,
    ensures
        wrap(c - 1, n) == (if c == 0 {
            n - 1
        } else {
            c - 1
        }),
        wrap(c + 1, n) == (if c == n - 1 {
            0
        } else {
            c + 1
        }),
        wrap(c, n) == c,
{
    lemma_small_mod(c as nat, n as nat);
    if c == 0 {
        lemma_fundamental_div_mod_converse(-1, n, -1, n - 1);
    } else {
        lemma_small_mod((c - 1) as nat, n as nat);
    }
    if c == n - 1 {
        lemma_fundamental_div_mod_converse(n, n, 1, 0);
    } else {
        lemma_small_mod((c + 1) as nat, n as nat);
    }
}

/// Wrapping first and stepping then is stepping first and wrapping then.
pub proof fn lemma_wrap_shift(c: int, d: int, n: int)
    requires
        n >= 1,
    ensures
        wrap(wrap(c, n) + d, n) == wrap(c + d, n),
{
    lemma_add_mod_noop(c, d, n);
    lemma_add_mod_noop(c % n, d, n);
    lemma_mod_twice(c, n);
}

/// A coordinate with one full turn of the torus added wraps to where it
/// wrapped before.
pub proof fn lemma_wrap_turn(c: int, n: int)
    requires
        n >= 1,
    ensures
        wrap(n + c, n) == wrap(c, n),
{
    lemma_mod_add_multiples_vanish(c, n);
}

/// Two coordinates on a grid of side `n` give an index below `n * n`.
pub proof fn lemma_index_bound(x: int, y: int, n: int)
    requires
        0 <= x < n,
        0 <= y < n,
    ensures
        0 <= y * n + x < n * n,
{
    assert(0 <= y * n && y * n + n <= n * n) by (nonlinear_arith)
        requires
            0 <= y < n,
    ;
}

/// Every pair of coordinates names a cell of the grid.
pub proof fn lemma_cell_index_range(n: int, x: int, y: int)
    requires
        n >= 1,
    ensures
        0 <= cell_index(n, x, y) < n * n,
{
    lemma_wrap_range(x, n);
    lemma_wrap_range(y, n);
    lemma_index_bound(wrap(x, n), wrap(y, n), n);
}

/// An index below `n * n` splits into a column and a row on the grid, and
/// the two give the index back.
pub proof fn lemma_index_coords(i: int, n: int)
    requires
        n >= 1,
        0 <= i < n * n,
    ensures
        0 <= i % n < n,
        0 <= i / n < n,
        (i / n) * n + i % n == i,
        cell_index(n, i % n, i / n) == i,
{
    lemma_fundamental_div_mod(i, n);
    lemma_mod_bound(i, n);
    let q = i / n;
    let r = i % n;
    assert(n * q == q * n) by (nonlinear_arith);
    assert(0 <= q < n) by (nonlinear_arith)
        requires
            n >= 1,
            0 <= r < n,
            0 <= q * n + r < n * n,
    ;
    lemma_wrap_range(r, n);
    lemma_wrap_range(q, n);
}

/// A column and a row on the grid are the column and the row of their index.
pub proof fn lemma_coords_of_index(x: int, y: int, n: int)
    requires
        n >= 1,
        0 <= x < n,
        0 <= y < n,
    ensures
        (y * n + x) % n == x,
        (y * n + x) / n == y,
{
    assert(y * n == n * y) by (nonlinear_arith);
    lemma_fundamental_div_mod_converse(y * n + x, n, y, x);
}

/// A grid with no live cell has none in the next generation either, whatever
/// its side.
pub proof fn law_dead_grid_stays_dead(n: nat, cells: Seq<bool>)
    requires
        well_formed(n, cells),
        all_dead(cells),
    ensures
        all_dead(next_generation(n, cells)),
        next_generation(n, cells) == cells,
{
    let next = next_generation(n, cells);
    assert forall|i: int| 0 <= i < next.len() implies !next[i] by {
        let m = n as int;
        let x = i % m;
        let y = i / m;
        lemma_cell_index_range(m, x - 1, y - 1);
        lemma_cell_index_range(m, x, y - 1);
        lemma_cell_index_range(m, x + 1, y - 1);
        lemma_cell_index_range(m, x - 1, y);
        lemma_cell_index_range(m, x, y);
        lemma_cell_index_range(m, x + 1, y);
        lemma_cell_index_range(m, x - 1, y + 1);
        lemma_cell_index_range(m, x, y + 1);
        lemma_cell_index_range(m, x + 1, y + 1);
    }
    assert(next =~= cells);
}

/// The live neighbours of a cell are those of any cell that wraps to it.
pub proof fn lemma_neighbors_periodic(cells: Seq<bool>, n: int, x: int, y: int)
    requires
        n >= 1,
    ensures
        live_neighbors(cells, n, wrap(x, n), wrap(y, n)) == live_neighbors(cells, n, x, y),
        is_alive(cells, n, wrap(x, n), wrap(y, n)) == is_alive(cells, n, x, y),
{
    lemma_wrap_shift(x, -1, n);
    lemma_wrap_shift(x, 0, n);
    lemma_wrap_shift(x, 1, n);
    lemma_wrap_shift(y, -1, n);
    lemma_wrap_shift(y, 0, n);
    lemma_wrap_shift(y, 1, n);
}

/// The grid behaves as one tile of an infinite plane covered with copies of
/// itself: the plane repeats every `n` cells along both axes. Take any cell
/// of that plane, at any integer column `x` and row `y`: its state in the
/// next generation is what the rule gives for its own state and its eight
/// neighbours on the plane, so a cell at the border meets the cells of the
/// opposite border as its neighbours.
pub proof fn law_step_commutes_with_tiling(n: nat, cells: Seq<bool>, x: int, y: int)
    requires
        well_formed(n, cells),
    ensures
        is_alive(cells, n as int, x + n, y) == is_alive(cells, n as int, x, y),
        is_alive(cells, n as int, x, y + n) == is_alive(cells, n as int, x, y),
        is_alive(next_generation(n, cells), n as int, x, y) == survives(
            is_alive(cells, n as int, x, y),
            live_neighbors(cells, n as int, x, y),
        ),
{
    let m = n as int;
    lemma_wrap_turn(x, m);
    lemma_wrap_turn(y, m);
    assert(x + n == m + x && y + n == m + y);
    lemma_cell_index_range(m, x, y);
    lemma_wrap_range(x, m);
    lemma_wrap_range(y, m);
    lemma_coords_of_index(wrap(x, m), wrap(y, m), m);
    lemma_neighbors_periodic(cells, m, x, y);
}

} // verus!
