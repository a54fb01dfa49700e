//! Conway's Game of Life on a square torus, with interchangeable engines that
//! all compute the same next generation.
//!
//! [`rules`] holds the mathematical model: what the next generation of a grid
//! is. Every engine under [`game_impls`] is proved to compute exactly that,
//! and [`laws`] states what follows for any two of them. [`render`] turns a
//! generation into text, [`random`] samples the cells of a first generation,
//! and [`context`] plans the queues of a compute device.
//!
//! The library does no input or output and starts no thread. A caller that
//! wants the step in slices on threads of its own, or the kernel of the
//! compute engine on a device, finds the arithmetic for it here.

use vstd::prelude::*;

pub mod context;
pub mod game_impls;
pub mod laws;
pub mod random;
pub mod render;
pub mod rules;

verus! {

/// What can go wrong when a grid is built or stepped.
#[derive(Clone, Copy, Debug, PartialEq, Eq, Structural)]
pub enum GolError {
    /// The number of cells handed over is not the square of the side length.
    ShapeMismatch,
    /// No compute device could be found or initialised.
    DeviceUnavailable,
    /// A compute dispatch did not hand back a whole generation.
    DispatchFailure,
    /// A worker did not hand back its whole slice of the generation.
    WorkerFailure,
}

/// One generation of the game: a square grid of cells on a torus.
///
/// `size` and `cells` are the model that every contract speaks of: the side
/// length `N`, and the `N * N` cell states in row-major order, the cell at
/// column `x` of row `y` standing at index `y * N + x`.
pub trait Gol: Sized {
    /// The side length of the grid.
    spec fn size(&self) -> nat;

    /// The cell states, row by row.
    spec fn cells(&self) -> Seq<bool>;

    /// Builds the grid of side `size` that holds `slice`, row by row. The
    /// slice must hold exactly `size * size` cells.
    fn from_slice(size: usize, slice: &[bool]) -> (made: Result<Self, GolError>)
        requires
            size >= 1,
        ensures
            match made {
                Ok(game) => {
                    &&& slice@.len() == size * size
                    &&& game.size() == size
                    &&& game.cells() == slice@
                },
                Err(e) => e == GolError::ShapeMismatch && slice@.len() != size * size,
            },
    ;

    /// The cell states of this generation, row by row.
    fn to_vec(&self) -> (out: Vec<bool>)
        ensures
            out@ == self.cells(),
            rules::well_formed(self.size(), out@),
    ;

    /// The generation that follows this one. This one is left as it is.
    fn to_next(&self) -> (next: Self)
        ensures
            next.size() == self.size(),
            next.cells() == rules::next_generation(self.size(), self.cells()),
            rules::well_formed(next.size(), next.cells()),
    ;

    /// This generation as text: one line per row, `1` for a live cell and `0`
    /// for a dead one.
    fn render(&self) -> (text: String)
        ensures
            text@ == render::rendered(self.size(), self.cells()),
    ;
}

} // verus!
