//! The scalar engine: one cell after another, each from its eight wrapped
//! neighbours. The other engines are measured against this one.
//!
//! The same per-cell rule also serves the step in slices, in which the cells
//! are shared out among workers as `partition` says. A worker needs nothing
//! but the previous generation and its own slice, so the slices can be
//! computed at once on as many threads: `next_states_for_slice` is the work
//! of one worker, `assemble` puts the results together.

use vstd::prelude::*;
use crate::render::render_cells;
use crate::rules::{
    alive_count, is_alive, lemma_index_bound, lemma_index_coords, lemma_wrap_range,
    lemma_wrap_step, live_neighbors, next_cell, next_generation, well_formed,
};
use crate::game_impls::partition::{
    law_slices_partition, lemma_slices_chain, merged, part, partition, parts_complete, slice_end,
    slice_owner, slice_start, slices,
};
use crate::random::random_cells;
use crate::{Gol, GolError};

verus! {

/// One generation, held as a flat row-major vector of cells.
#[derive(Debug)]
pub struct GameState {
    game_size: usize,
    state: Vec<bool>,
}

/// The cells of `slice` in a vector of their own.
pub fn copy_cells(slice: &[bool]) -> (cells: Vec<bool>)
    ensures
        cells@ == slice@,
{
    let mut cells: Vec<bool> = Vec::with_capacity(slice.len());
    let mut i: usize = 0;
    while i < slice.len()
        invariant
            0 <= i <= slice@.len(),
            cells@ == slice@.take(i as int),
        decreases slice@.len() - i,
    {
        cells.push(slice[i]);
        assert(slice@.take(i + 1) =~= slice@.take(i as int).push(slice@[i as int]));
        i += 1;
    }
    assert(slice@.take(slice@.len() as int) =~= slice@);
    cells
}

impl Gol for GameState {
    closed spec fn size(&self) -> nat {
        self.game_size as nat
    }

    closed spec fn cells(&self) -> Seq<bool> {
        self.state@
    }

    fn from_slice(size: usize, slice: &[bool]) -> (made: Result<Self, GolError>) {
        let len = slice.len();
        match size.checked_mul(size) {
            Some(total) => {
                if total == len {
                    let state = copy_cells(slice);
                    Ok(GameState { game_size: size, state })
                } else {
                    Err(GolError::ShapeMismatch)
                }
            },
            None => Err(GolError::ShapeMismatch),
        }
    }

    fn to_vec(&self) -> (out: Vec<bool>) {
        proof {
            use_type_invariant(self);
        }
        self.state.clone()
    }

    fn to_next(&self) -> (next: Self) {
        proof {
            use_type_invariant(self);
        }
        let mut next = vec![false; self.state.len()];
        let mut i: usize = 0;
        while i < self.state.len()
            invariant
                next@.len() == self.cells().len(),
                0 <= i <= self.cells().len(),
                forall|k: int|
                    0 <= k < i ==> next@[k] == next_cell(self.cells(), self.size() as int, k),
            decreases self.cells().len() - i,
        {
            let alive = self.next_state_for(i);
            next.set(i, alive);
            i += 1;
        }
        assert(next@ =~= next_generation(self.size(), self.cells()));
        GameState { game_size: self.game_size, state: next }
    }

    fn render(&self) -> (text: String) {
        proof {
            use_type_invariant(self);
        }
        render_cells(self.game_size, self.state.as_slice())
    }
}

impl GameState {
    #[verifier::type_invariant]
    spec fn inv(&self) -> bool {
        well_formed(self.game_size as nat, self.state@)
    }

    /// A grid of side `size` with no live cell.
    pub fn new(size: usize) -> (game: Self)
        requires
            size >= 1,
            size * size <= usize::MAX,
        ensures
            game.size() == size,
            game.cells() == Seq::new((size * size) as nat, |i: int| false),
    {
        let state = vec![false; size * size];
        assert(state@ =~= Seq::new((size * size) as nat, |i: int| false));
        GameState { game_size: size, state }
    }

    /// A grid of side `size` in which every cell is sampled on its own.
    pub fn from_random(size: usize) -> (game: Self)
        requires
            size >= 1,
            size * size <= usize::MAX,
        ensures
            game.size() == size,
            well_formed(game.size(), game.cells()),
    {
        let cells = random_cells(size * size);
        match Self::from_slice(size, cells.as_slice()) {
            Ok(game) => game,
            Err(_) => vstd::pervasive::unreached(),
        }
    }

    /// The side length of the grid.
    pub fn game_size(&self) -> (size: usize)
        ensures
            size == self.size(),
            size >= 1,
            size * size == self.cells().len(),
    {
        proof {
            use_type_invariant(self);
        }
        self.game_size
    }

    /// The next generation of `previous`, computed slice by slice as
    /// `threads` workers share it out: every worker's slice is computed on
    /// its own from `previous`, and the slices are put together. The result
    /// is the same for every number of workers.
    ///
    /// The slices are computed here one after another, on the calling
    /// thread. No slice depends on another, so the order in which they are
    /// computed, or whether they are computed at once, does not show in the
    /// result.
    pub fn from_previous_parallel(previous: &GameState, threads: usize) -> (next: GameState)
        requires
            threads >= 1,
        ensures
            next.size() == previous.size(),
            next.cells() == next_generation(previous.size(), previous.cells()),
    {
        let total = previous.state.len();
        let ranges = partition(total, threads);
        let mut parts: Vec<Option<Vec<bool>>> = Vec::with_capacity(threads);
        let mut k: usize = 0;
        while k < threads
            invariant
                threads >= 1,
                0 <= k <= threads,
                total == previous.cells().len(),
                ranges@ == slices(total as int, threads as int, threads as nat),
                parts@.len() == k,
                forall|j: int|
                    0 <= j < k ==> (#[trigger] parts@[j]) is Some && part(parts@, j)
                        == previous.slice_generation(threads as int, j),
            decreases threads - k,
        {
            proof {
                lemma_slices_chain(total as int, threads as int, k as int);
            }
            let (start, end) = ranges[k];
            let cells = previous.next_states_for_slice(start, end);
            let ghost before = parts@;
            parts.push(Some(cells));
            assert forall|j: int| 0 <= j < k + 1 implies (#[trigger] parts@[j]) is Some && part(
                parts@,
                j,
            ) == previous.slice_generation(threads as int, j) by {
                if j < k {
                    assert(parts@[j] == before[j]);
                    assert(part(parts@, j) == part(before, j));
                }
            }
            k += 1;
        }
        proof {
            previous.law_slices_make_generation(threads as int, parts@);
        }
        match GameState::assemble(previous, threads, parts) {
            Ok(next) => next,
            Err(_) => vstd::pervasive::unreached(),
        }
    }

    /// What worker `k` of `threads` has to hand back: the next states of the
    /// cells of its slice.
    pub open spec fn slice_generation(&self, threads: int, k: int) -> Seq<bool> {
        next_generation(self.size(), self.cells()).subrange(
            slice_start(self.cells().len() as int, threads, k),
            slice_end(self.cells().len() as int, threads, k),
        )
    }

    /// Where every worker hands back the next states of the cells of its
    /// slice, the parts are whole, and put together they are the next
    /// generation, whatever the number of workers.
    pub proof fn law_slices_make_generation(
        &self,
        threads: int,
        parts: Seq<Option<Vec<bool>>>,
    )
        requires
            threads >= 1,
            parts.len() == threads,
            forall|k: int|
                0 <= k < threads ==> (#[trigger] parts[k]) is Some && part(parts, k)
                    == self.slice_generation(threads, k),
        ensures
            parts_complete(self.cells().len() as int, threads, parts),
            merged(self.cells().len() as int, threads, parts) == next_generation(
                self.size(),
                self.cells(),
            ),
    {
        let cells = self.cells().len() as int;
        let goal = next_generation(self.size(), self.cells());
        assert forall|k: int| 0 <= k < threads implies (#[trigger] parts[k]) is Some && part(
            parts,
            k,
        ).len() == slice_end(cells, threads, k) - slice_start(cells, threads, k) by {
            lemma_slices_chain(cells, threads, k);
        }
        let whole = merged(cells, threads, parts);
        assert forall|i: int| 0 <= i < cells implies whole[i] == goal[i] by {
            let k = slice_owner(cells, threads, i);
            law_slices_partition(cells, threads, i, k);
            lemma_slices_chain(cells, threads, k);
            assert(parts[k] is Some);
        }
        assert(whole =~= goal);
    }

    /// The next states of the cells from index `start` up to index `end`:
    /// the work of one worker.
    pub fn next_states_for_slice(&self, start: usize, end: usize) -> (cells: Vec<bool>)
        requires
            start <= end <= self.cells().len(),
        ensures
            cells@ == next_generation(self.size(), self.cells()).subrange(
                start as int,
                end as int,
            ),
    {
        let mut cells: Vec<bool> = Vec::with_capacity(end - start);
        let mut i: usize = start;
        while i < end
            invariant
                start <= i <= end <= self.cells().len(),
                cells@.len() == i - start,
                forall|k: int|
                    0 <= k < i - start ==> cells@[k] == next_cell(
                        self.cells(),
                        self.size() as int,
                        start + k,
                    ),
            decreases end - i,
        {
            let alive = self.next_state_for(i);
            cells.push(alive);
            i += 1;
        }
        assert(cells@ =~= next_generation(self.size(), self.cells()).subrange(
            start as int,
            end as int,
        ));
        cells
    }

    /// Puts together what `threads` workers handed back for the generation
    /// after `previous`. The parts come in the workers' order; a worker that
    /// handed back nothing, or not as many cells as its slice has, fails the
    /// whole step.
    pub fn assemble(previous: &GameState, threads: usize, parts: Vec<Option<Vec<bool>>>) -> (made:
        Result<GameState, GolError>)
        requires
            threads >= 1,
        ensures
            match made {
                Ok(next) => {
                    &&& parts_complete(previous.cells().len() as int, threads as int, parts@)
                    &&& next.size() == previous.size()
                    &&& next.cells() == merged(
                        previous.cells().len() as int,
                        threads as int,
                        parts@,
                    )
                },
                Err(e) => {
                    &&& e == GolError::WorkerFailure
                    &&& !parts_complete(previous.cells().len() as int, threads as int, parts@)
                },
            },
    {
        proof {
            use_type_invariant(previous);
        }
        let total = previous.state.len();
        let ghost cells = total as int;
        let ghost t = threads as int;
        if parts.len() != threads {
            return Err(GolError::WorkerFailure);
        }
        let ranges = partition(total, threads);
        let mut state: Vec<bool> = Vec::with_capacity(total);
        let mut k: usize = 0;
        while k < threads
            invariant
                threads >= 1,
                cells == total,
                cells == previous.cells().len(),
                t == threads,
                0 <= k <= threads,
                parts@.len() == threads,
                ranges@ == slices(cells, t, threads as nat),
                state@.len() == slice_start(cells, t, k as int),
                forall|j: int|
                    0 <= j < k ==> (#[trigger] parts@[j]) is Some && part(parts@, j).len()
                        == slice_end(cells, t, j) - slice_start(cells, t, j),
                forall|i: int|
                    0 <= i < state@.len() ==> state@[i] == merged(cells, t, parts@)[i],
            decreases threads - k,
        {
            proof {
                lemma_slices_chain(cells, t, k as int);
            }
            let (start, end) = ranges[k];
            match &parts[k] {
                None => {
                    return Err(GolError::WorkerFailure);
                },
                Some(cells_of_worker) => {
                    if cells_of_worker.len() != end - start {
                        assert(part(parts@, k as int).len() != slice_end(cells, t, k as int)
                            - slice_start(cells, t, k as int));
                        return Err(GolError::WorkerFailure);
                    }
                    let ghost before = state@;
                    state.extend_from_slice(cells_of_worker.as_slice());
                    assert forall|i: int| 0 <= i < state@.len() implies state@[i] == merged(
                        cells,
                        t,
                        parts@,
                    )[i] by {
                        if i >= before.len() {
                            law_slices_partition(cells, t, i, k as int);
                        }
                    }
                },
            }
            k += 1;
        }
        proof {
            lemma_slices_chain(cells, t, threads - 1);
            assert(state@ =~= merged(cells, t, parts@));
        }
        Ok(GameState { game_size: previous.game_size, state })
    }

    /// The column and the row of the cell at index `i`.
    pub fn coords_from_index(&self, i: usize) -> (xy: (usize, usize))
        requires
            i < self.cells().len(),
        ensures
            xy.0 == (i as int) % (self.size() as int),
            xy.1 == (i as int) / (self.size() as int),
            xy.0 < self.size(),
            xy.1 < self.size(),
            xy.1 * self.size() + xy.0 == i,
    {
        proof {
            use_type_invariant(self);
            lemma_index_coords(i as int, self.game_size as int);
        }
        (i % self.game_size, i / self.game_size)
    }

    /// 1 if the cell at column `x`, row `y` is alive, else 0.
    fn alive_at(&self, x: usize, y: usize) -> (count: u8)
        requires
            x < self.size(),
            y < self.size(),
        ensures
            count == alive_count(self.cells(), self.size() as int, x as int, y as int),
    {
        proof {
            use_type_invariant(self);
            lemma_index_bound(x as int, y as int, self.game_size as int);
            lemma_wrap_range(x as int, self.game_size as int);
            lemma_wrap_range(y as int, self.game_size as int);
            assert(0 <= y * self.game_size <= y * self.game_size + x < self.state.len());
        }
        if self.state[y * self.game_size + x] {
            1
        } else {
            0
        }
    }

    /// The next state of the cell at index `i`, from its own state and that
    /// of its eight neighbours around the torus.
    pub fn next_state_for(&self, i: usize) -> (alive: bool)
        requires
            i < self.cells().len(),
        ensures
            alive == next_cell(self.cells(), self.size() as int, i as int),
    {
        proof {
            use_type_invariant(self);
        }
        let (x, y) = self.coords_from_index(i);
        let size = self.game_size;
        proof {
            lemma_wrap_step(x as int, size as int);
            lemma_wrap_step(y as int, size as int);
        }
        let left = if x == 0 { size - 1 } else { x - 1 };
        let right = if x == size - 1 { 0 } else { x + 1 };
        let up = if y == 0 { size - 1 } else { y - 1 };
        let down = if y == size - 1 { 0 } else { y + 1 };
        proof {
            let n = size as int;
            let c = self.state@;
            lemma_wrap_range(left as int, n);
            lemma_wrap_range(right as int, n);
            lemma_wrap_range(up as int, n);
            lemma_wrap_range(down as int, n);
            assert(alive_count(c, n, left as int, up as int) == alive_count(c, n, x - 1, y - 1));
            assert(alive_count(c, n, x as int, up as int) == alive_count(c, n, x as int, y - 1));
            assert(alive_count(c, n, right as int, up as int) == alive_count(c, n, x + 1, y - 1));
            assert(alive_count(c, n, left as int, y as int) == alive_count(c, n, x - 1, y as int));
            assert(alive_count(c, n, right as int, y as int) == alive_count(c, n, x + 1, y as int));
            assert(alive_count(c, n, left as int, down as int) == alive_count(c, n, x - 1, y + 1));
            assert(alive_count(c, n, x as int, down as int) == alive_count(c, n, x as int, y + 1));
            assert(alive_count(c, n, right as int, down as int) == alive_count(
                c,
                n,
                x + 1,
                y + 1,
            ));
        }
        let total: u8 = self.alive_at(left, up) + self.alive_at(x, up) + self.alive_at(right, up)
            + self.alive_at(left, y) + self.alive_at(right, y) + self.alive_at(left, down)
            + self.alive_at(x, down) + self.alive_at(right, down);
        assert(total == live_neighbors(self.state@, size as int, x as int, y as int));
        assert(self.state@[i as int] == is_alive(self.state@, size as int, x as int, y as int));
        // the rule differs for a live cell and a dead one
        if self.state[i] {
            total == 2 || total == 3
        } else {
            total == 3
        }
    }
}

} // verus!
