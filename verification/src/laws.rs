//! What holds of every engine, stated over the calls themselves: whatever
//! the functions of an engine hand back, as far as their contracts allow it.

use vstd::prelude::*;
use crate::game_impls::cpu;
use crate::rules::{all_dead, law_dead_grid_stays_dead, next_generation, well_formed};
use crate::Gol;

verus! {

/// Any two engines agree: built from the same cells, stepped once and read
/// back, they hold the same cells, which are those of the next generation.
pub proof fn law_engines_agree<A: Gol, B: Gol>(
    size: usize,
    slice: &[bool],
    a: A,
    b: B,
    a_next: A,
    b_next: B,
    a_cells: Vec<bool>,
    b_cells: Vec<bool>,
)
    requires
        call_ensures(A::from_slice, (size, slice), Ok(a)),
        call_ensures(B::from_slice, (size, slice), Ok(b)),
        call_ensures(A::to_next, (&a,), a_next),
        call_ensures(B::to_next, (&b,), b_next),
        call_ensures(A::to_vec, (&a_next,), a_cells),
        call_ensures(B::to_vec, (&b_next,), b_cells),
    ensures
        a_cells@ == b_cells@,
        a_cells@ == next_generation(size as nat, slice@),
{
}

/// On every engine, a grid with no live cell has none after a step.
pub proof fn law_dead_grid_stays_dead_on_every_engine<A: Gol>(game: A, next: A)
    requires
        well_formed(game.size(), game.cells()),
        all_dead(game.cells()),
        call_ensures(A::to_next, (&game,), next),
    ensures
        next.size() == game.size(),
        all_dead(next.cells()),
{
    law_dead_grid_stays_dead(game.size(), game.cells());
}

/// Reading a generation twice gives the same cells both times.
pub proof fn law_read_twice<A: Gol>(game: A, first: Vec<bool>, second: Vec<bool>)
    requires
        call_ensures(A::to_vec, (&game,), first),
        call_ensures(A::to_vec, (&game,), second),
    ensures
        first@ == second@,
{
}

/// The number of workers does not show in the result of a step in slices.
pub proof fn law_thread_count_invariance(
    previous: cpu::GameState,
    threads: usize,
    other_threads: usize,
    next: cpu::GameState,
    other_next: cpu::GameState,
)
    requires
        call_ensures(cpu::GameState::from_previous_parallel, (&previous, threads), next),
        call_ensures(
            cpu::GameState::from_previous_parallel,
            (&previous, other_threads),
            other_next,
        ),
    ensures
        next.cells() == other_next.cells(),
        next.cells() == next_generation(previous.size(), previous.cells()),
{
}

} // verus!
