//! The vector engine: the same rule as the scalar engine, with the eight
//! neighbour coordinates of a cell computed in one batch by the ndarray
//! crate. The cell's coordinates, eight times over, are added to a fixed
//! table of offsets and reduced modulo the grid's side, array by array.
//!
//! The arrays themselves are the ndarray crate's. Verus does not look inside
//! them: what they hold goes by the names `cell_rows` and `pair_rows`, and
//! each call into the crate stands in a small function of its own whose
//! contract is believed, not proved.

use vstd::prelude::*;
use crate::game_impls::cpu::copy_cells;
use crate::render::render_cells;
use crate::rules::{
    alive_count, is_alive, lemma_coords_of_index, lemma_index_bound, lemma_index_coords,
    lemma_wrap_range, lemma_wrap_turn, live_neighbors, next_alive, next_generation, well_formed,
    wrap,
};
use crate::random::random_cells;
use crate::{Gol, GolError};

verus! {

/// A two-dimensional array of cells: `ndarray::Array2<bool>`.
#[verifier::external_body]
pub struct CellArray {
    inner: ndarray::Array2<bool>,
}

/// A two-dimensional array of indices: `ndarray::Array2<usize>`. The engine
/// holds pairs of coordinates in it, one pair per row.
#[verifier::external_body]
pub struct PairTable {
    inner: ndarray::Array2<usize>,
}

/// What a `CellArray` holds, row by row.
pub uninterp spec fn cell_rows(a: CellArray) -> Seq<Seq<bool>>;

/// What a `PairTable` holds, row by row.
pub uninterp spec fn pair_rows(t: PairTable) -> Seq<Seq<usize>>;

/// An array of `height` rows with `width` elements each.
pub open spec fn shaped<T>(rows: Seq<Seq<T>>, height: int, width: int) -> bool {
    &&& rows.len() == height
    &&& forall|r: int| 0 <= r < height ==> (#[trigger] rows[r]).len() == width
}

/// The length of the rows of an array, taken from its first row.
pub open spec fn row_len<T>(rows: Seq<Seq<T>>) -> int {
    if rows.len() == 0 {
        0
    } else {
        rows[0].len() as int
    }
}

/// Two arrays with as many rows, and as many elements in each row.
pub open spec fn same_shape<T>(a: Seq<Seq<T>>, b: Seq<Seq<T>>) -> bool {
    &&& a.len() == b.len()
    &&& forall|k: int| 0 <= k < a.len() ==> (#[trigger] a[k]).len() == b[k].len()
}

/// The cells of a square array in row-major order.
pub open spec fn flattened(rows: Seq<Seq<bool>>) -> Seq<bool> {
    Seq::new(
        rows.len() * rows.len(),
        |i: int| rows[i / (rows.len() as int)][i % (rows.len() as int)],
    )
}

/// `ArrayBase::default` of ndarray, with a shape in column-major memory
/// order as `ShapeBuilder::f` gives it: an array of `height` rows and
/// `width` columns in which every cell is `false`, the default of `bool`.
/// The crate panics where the number of cells overflows `isize`.
#[verifier::external_body]
fn cells_default(height: usize, width: usize) -> (a: CellArray)
    requires
        height >= 1,
        width >= 1,
        height * width <= isize::MAX,
    ensures
        shaped(cell_rows(a), height as int, width as int),
        forall|r: int, c: int|
            0 <= r < height && 0 <= c < width ==> cell_rows(a)[r][c] == false,
{
    CellArray { inner: ndarray::Array::default(ndarray::ShapeBuilder::f((height, width))) }
}

/// `ArrayBase::from_shape_vec` of ndarray, with a shape in row-major order:
/// the array of `height` rows and `width` columns whose rows are the
/// consecutive runs of `cells`. The crate reports an error where `cells` has
/// not `height * width` elements or where that number overflows `isize`; a
/// `Vec` never holds more than `isize::MAX` bytes, so the second cannot
/// happen once the first has not.
#[verifier::external_body]
fn cells_from_shape_vec(height: usize, width: usize, cells: Vec<bool>) -> (made: Option<CellArray>)
    requires
        height >= 1,
        width >= 1,
    ensures
        made is Some <==> cells@.len() == height * width,
        made matches Some(a) ==> {
            &&& height * width <= isize::MAX
            &&& shaped(cell_rows(a), height as int, width as int)
            &&& forall|r: int, c: int|
                0 <= r < height && 0 <= c < width ==> cell_rows(a)[r][c] == cells@[r * width + c]
        },
{
    match ndarray::Array::from_shape_vec((height, width), cells) {
        Ok(inner) => Some(CellArray { inner }),
        Err(_) => None,
    }
}

/// `ArrayBase::dim` of ndarray: the number of rows and the number of
/// columns, which is the length of every row.
#[verifier::external_body]
fn cells_dim(a: &CellArray) -> (dim: (usize, usize))
    ensures
        shaped(cell_rows(*a), dim.0 as int, dim.1 as int),
{
    a.inner.dim()
}

/// Indexing of an ndarray array by a pair: the cell at row `r`, column `c`.
/// The crate panics where the index is out of bounds.
#[verifier::external_body]
fn cell_at(a: &CellArray, r: usize, c: usize) -> (alive: bool)
    requires
        r < cell_rows(*a).len(),
        c < cell_rows(*a)[r as int].len(),
    ensures
        alive == cell_rows(*a)[r as int][c as int],
{
    a.inner[(r, c)]
}

/// Mutable indexing of an ndarray array by a pair: the cell at row `r`,
/// column `c` becomes `alive`, and no other cell changes. The crate panics
/// where the index is out of bounds.
#[verifier::external_body]
fn cell_set(a: &mut CellArray, r: usize, c: usize, alive: bool)
    requires
        r < cell_rows(*old(a)).len(),
        c < cell_rows(*old(a))[r as int].len(),
    ensures
        cell_rows(*final(a)) == cell_rows(*old(a)).update(
            r as int,
            cell_rows(*old(a))[r as int].update(c as int, alive),
        ),
{
    a.inner[(r, c)] = alive;
}

/// `ArrayBase::iter` of ndarray: the cells in logical order, in which the
/// last index varies fastest, so row after row.
#[verifier::external_body]
fn cells_in_order(a: &CellArray) -> (cells: Vec<bool>)
    ensures
        cells@.len() == cell_rows(*a).len() * row_len(cell_rows(*a)),
        forall|r: int, c: int|
            0 <= r < cell_rows(*a).len() && 0 <= c < row_len(cell_rows(*a)) ==> cells@[r * row_len(
                cell_rows(*a),
            ) + c] == cell_rows(*a)[r][c],
{
    a.inner.iter().copied().collect()
}

/// `Array2::from` of ndarray for a vector of pairs, which is what the crate's
/// `array!` comes to: the array with one row per pair. The crate panics
/// where the number of elements overflows `isize`.
#[verifier::external_body]
fn table_from_pairs(pairs: Vec<[usize; 2]>) -> (t: PairTable)
    requires
        pairs@.len() * 2 <= isize::MAX,
    ensures
        shaped(pair_rows(t), pairs@.len() as int, 2),
        forall|k: int| 0 <= k < pairs@.len() ==> #[trigger] pair_rows(t)[k] == pairs@[k]@,
{
    PairTable { inner: ndarray::Array2::from(pairs) }
}

/// `+=` of ndarray between two arrays: addition element by element, in
/// place. The crate panics where the shapes differ and `rhs` cannot be
/// broadcast; the addition of two elements is that of `usize`, which must
/// not overflow.
#[verifier::external_body]
fn table_add_assign(t: &mut PairTable, rhs: &PairTable)
    requires
        same_shape(pair_rows(*old(t)), pair_rows(*rhs)),
        forall|k: int, j: int|
            0 <= k < pair_rows(*rhs).len() && 0 <= j < pair_rows(*rhs)[k].len() ==> pair_rows(
                *old(t),
            )[k][j] + pair_rows(*rhs)[k][j] <= usize::MAX,
    ensures
        same_shape(pair_rows(*final(t)), pair_rows(*rhs)),
        forall|k: int, j: int|
            0 <= k < pair_rows(*rhs).len() && 0 <= j < pair_rows(*rhs)[k].len() ==> pair_rows(
                *final(t),
            )[k][j] == pair_rows(*old(t))[k][j] + pair_rows(*rhs)[k][j],
{
    t.inner += &rhs.inner;
}

/// `%=` of ndarray between two arrays: the remainder element by element, in
/// place. The crate panics where the shapes differ and `rhs` cannot be
/// broadcast; the remainder of two elements is that of `usize`, whose
/// divisor must not be zero.
#[verifier::external_body]
fn table_rem_assign(t: &mut PairTable, rhs: &PairTable)
    requires
        same_shape(pair_rows(*old(t)), pair_rows(*rhs)),
        forall|k: int, j: int|
            0 <= k < pair_rows(*rhs).len() && 0 <= j < pair_rows(*rhs)[k].len() ==> pair_rows(
                *rhs,
            )[k][j] != 0,
    ensures
        same_shape(pair_rows(*final(t)), pair_rows(*rhs)),
        forall|k: int, j: int|
            0 <= k < pair_rows(*rhs).len() && 0 <= j < pair_rows(*rhs)[k].len() ==> pair_rows(
                *final(t),
            )[k][j] == pair_rows(*old(t))[k][j] % pair_rows(*rhs)[k][j],
{
    t.inner %= &rhs.inner;
}

/// `ArrayBase::rows` of ndarray: the rows of a table of two columns in
/// order, each handed out as the pair of its two elements.
#[verifier::external_body]
fn table_rows(t: &PairTable) -> (pairs: Vec<(usize, usize)>)
    requires
        shaped(pair_rows(*t), pair_rows(*t).len() as int, 2),
    ensures
        pairs@.len() == pair_rows(*t).len(),
        forall|k: int|
            0 <= k < pair_rows(*t).len() ==> #[trigger] pairs@[k] == (
                pair_rows(*t)[k][0],
                pair_rows(*t)[k][1],
            ),
{
    t.inner.rows().into_iter().map(|row| (row[0], row[1])).collect()
}

/// `ArrayBase::to_owned` of ndarray: an array of its own with the same
/// elements.
#[verifier::external_body]
fn table_to_owned(t: &PairTable) -> (copy: PairTable)
    ensures
        pair_rows(copy) == pair_rows(*t),
{
    PairTable { inner: t.inner.to_owned() }
}

/// The offset that the table holds for a step `d` along an axis of length
/// `size`: the step with one full turn added, so that it is never negative.
pub open spec fn turned(size: int, d: int) -> int {
    size + d
}

/// The steps to the eight neighbours, as pairs of a step along the rows and a
/// step along the columns, in the order of the table.
pub open spec fn neighbor_steps() -> Seq<(int, int)> {
    seq![(-1, -1), (-1, 0), (-1, 1), (0, -1), (0, 1), (1, -1), (1, 0), (1, 1)]
}

/// The table of offsets for a grid of `x_size` rows and `y_size` columns.
pub open spec fn neighbor_offsets(x_size: int, y_size: int) -> Seq<Seq<usize>> {
    Seq::new(
        8,
        |k: int|
            seq![
                turned(x_size, neighbor_steps()[k].0) as usize,
                turned(y_size, neighbor_steps()[k].1) as usize,
            ],
    )
}

/// The table of moduli for a grid of `x_size` rows and `y_size` columns:
/// the two sizes, eight times over.
pub open spec fn boundary(x_size: int, y_size: int) -> Seq<Seq<usize>> {
    Seq::new(8, |k: int| seq![x_size as usize, y_size as usize])
}

/// A coordinate on the grid, moved by a turned step and reduced modulo the
/// side, is the coordinate moved by the step and wrapped.
pub proof fn lemma_turned_step_wraps(c: int, d: int, n: int)
    requires
        n >= 1,
    ensures
        (c + turned(n, d)) % n == wrap(c + d, n),
{
    lemma_wrap_turn(c + d, n);
    assert(c + turned(n, d) == n + (c + d));
}

/// One generation, held as a two-dimensional array of cells, with the two
/// tables from which the neighbours of a cell are computed in one batch.
pub struct GameState {
    state: CellArray,
    neighbor_offsets: PairTable,
    boundaries: PairTable,
}

impl Gol for GameState {
    closed spec fn size(&self) -> nat {
        cell_rows(self.state).len()
    }

    closed spec fn cells(&self) -> Seq<bool> {
        flattened(cell_rows(self.state))
    }

    fn from_slice(size: usize, slice: &[bool]) -> (made: Result<Self, GolError>) {
        match cells_from_shape_vec(size, size, copy_cells(slice)) {
            Some(state) => {
                proof {
                    lemma_side_fits(size as int);
                    assert forall|i: int| 0 <= i < size * size implies flattened(
                        cell_rows(state),
                    )[i] == slice@[i] by {
                        lemma_index_coords(i, size as int);
                    }
                    assert(flattened(cell_rows(state)) =~= slice@);
                }
                Ok(
                    GameState {
                        state,
                        neighbor_offsets: Self::gen_neighbor_offsets(size, size),
                        boundaries: Self::gen_boundary(size, size),
                    },
                )
            },
            None => Err(GolError::ShapeMismatch),
        }
    }

    fn to_vec(&self) -> (out: Vec<bool>) {
        proof {
            use_type_invariant(self);
        }
        let dim = cells_dim(&self.state);
        let out = cells_in_order(&self.state);
        proof {
            let n = dim.0 as int;
            assert forall|i: int| 0 <= i < n * n implies out@[i] == self.cells()[i] by {
                lemma_index_coords(i, n);
            }
            assert(out@ =~= self.cells());
        }
        out
    }

    fn to_next(&self) -> (next: Self) {
        proof {
            use_type_invariant(self);
        }
        let size = cells_dim(&self.state).0;
        let ghost n = size as int;
        let ghost goal = next_generation(self.size(), self.cells());
        let mut next = cells_default(size, size);
        let mut r: usize = 0;
        while r < size
            invariant
                n == size,
                n == self.size(),
                goal == next_generation(self.size(), self.cells()),
                well_formed(self.size(), self.cells()),
                0 <= r <= size,
                shaped(cell_rows(next), n, n),
                forall|y: int, x: int|
                    0 <= y < r && 0 <= x < n ==> cell_rows(next)[y][x] == next_alive(
                        self.cells(),
                        n,
                        x,
                        y,
                    ),
            decreases size - r,
        {
            let mut c: usize = 0;
            while c < size
                invariant
                    n == size,
                    n == self.size(),
                    well_formed(self.size(), self.cells()),
                    0 <= r < size,
                    0 <= c <= size,
                    shaped(cell_rows(next), n, n),
                    forall|y: int, x: int|
                        0 <= y < r && 0 <= x < n ==> cell_rows(next)[y][x] == next_alive(
                            self.cells(),
                            n,
                            x,
                            y,
                        ),
                    forall|x: int|
                        0 <= x < c ==> cell_rows(next)[r as int][x] == next_alive(
                            self.cells(),
                            n,
                            x,
                            r as int,
                        ),
                decreases size - c,
            {
                let alive = self.next_state_for((r, c));
                cell_set(&mut next, r, c, alive);
                c += 1;
            }
            r += 1;
        }
        proof {
            assert forall|i: int| 0 <= i < n * n implies flattened(cell_rows(next))[i]
                == goal[i] by {
                lemma_index_coords(i, n);
            }
            assert(flattened(cell_rows(next)) =~= goal);
        }
        GameState {
            state: next,
            neighbor_offsets: table_to_owned(&self.neighbor_offsets),
            boundaries: table_to_owned(&self.boundaries),
        }
    }

    fn render(&self) -> (text: String) {
        let cells = self.to_vec();
        render_cells(cells_dim(&self.state).0, cells.as_slice())
    }
}

/// A side whose square fits in `isize` leaves room for a step beyond it.
proof fn lemma_side_fits(n: int)
    requires
        n >= 1,
        n * n <= isize::MAX,
    ensures
        n + n + 1 <= usize::MAX,
{
    if n >= 2 {
        assert(n + n <= n * n) by (nonlinear_arith)
            requires
                n >= 2,
        ;
    }
}

impl GameState {
    #[verifier::type_invariant]
    spec fn inv(&self) -> bool {
        let n = cell_rows(self.state).len() as int;
        &&& n >= 1
        &&& n * n <= isize::MAX
        &&& shaped(cell_rows(self.state), n, n)
        &&& pair_rows(self.neighbor_offsets) == neighbor_offsets(n, n)
        &&& pair_rows(self.boundaries) == boundary(n, n)
    }

    /// A grid of side `size` with no live cell.
    pub fn new(size: usize) -> (game: Self)
        requires
            size >= 1,
            size * size <= isize::MAX,
        ensures
            game.size() == size,
            game.cells() == Seq::new((size * size) as nat, |i: int| false),
    {
        let state = cells_default(size, size);
        proof {
            lemma_side_fits(size as int);
            assert forall|i: int| 0 <= i < size * size implies flattened(cell_rows(state))[i]
                == false by {
                lemma_index_coords(i, size as int);
            }
            assert(flattened(cell_rows(state)) =~= Seq::new(
                (size * size) as nat,
                |i: int| false,
            ));
        }
        GameState {
            state,
            neighbor_offsets: Self::gen_neighbor_offsets(size, size),
            boundaries: Self::gen_boundary(size, size),
        }
    }

    /// A grid of side `size` in which every cell is sampled on its own.
    pub fn from_random(size: usize) -> (game: Self)
        requires
            size >= 1,
            size * size <= usize::MAX,
        ensures
            game.size() == size,
            well_formed(game.size(), game.cells()),
    {
        let cells = random_cells(size * size);
        match Self::from_slice(size, cells.as_slice()) {
            Ok(game) => game,
            Err(_) => vstd::pervasive::unreached(),
        }
    }

    /// The side length of the grid.
    pub fn game_size(&self) -> (size: usize)
        ensures
            size == self.size(),
            size >= 1,
            size * size == self.cells().len(),
    {
        proof {
            use_type_invariant(self);
        }
        cells_dim(&self.state).0
    }

    /// The next state of the cell at row `coords.0`, column `coords.1`. Its
    /// eight neighbours are found in one batch: the coordinates, eight times
    /// over, plus the table of offsets, modulo the table of sides.
    pub fn next_state_for(&self, coords: (usize, usize)) -> (alive: bool)
        requires
            coords.0 < self.size(),
            coords.1 < self.size(),
        ensures
            alive == next_alive(
                self.cells(),
                self.size() as int,
                coords.1 as int,
                coords.0 as int,
            ),
    {
        proof {
            use_type_invariant(self);
        }
        let ghost n = cell_rows(self.state).len() as int;
        let ghost rows = cell_rows(self.state);
        let mut neighbors = table_from_pairs(
            vec![
                [coords.0, coords.1],
                [coords.0, coords.1],
                [coords.0, coords.1],
                [coords.0, coords.1],
                [coords.0, coords.1],
                [coords.0, coords.1],
                [coords.0, coords.1],
                [coords.0, coords.1],
            ],
        );
        proof {
            lemma_side_fits(n);
        }
        table_add_assign(&mut neighbors, &self.neighbor_offsets);
        table_rem_assign(&mut neighbors, &self.boundaries);
        let pairs = table_rows(&neighbors);
        proof {
            assert forall|k: int| 0 <= k < 8 implies (#[trigger] pairs@[k]).0 == wrap(
                coords.0 + neighbor_steps()[k].0,
                n,
            ) && pairs@[k].1 == wrap(coords.1 + neighbor_steps()[k].1, n) by {
                lemma_turned_step_wraps(coords.0 as int, neighbor_steps()[k].0, n);
                lemma_turned_step_wraps(coords.1 as int, neighbor_steps()[k].1, n);
                assert(pair_rows(neighbors)[k][0] == (coords.0 + turned(n, neighbor_steps()[k].0))
                    % n);
                assert(pair_rows(neighbors)[k][1] == (coords.1 + turned(n, neighbor_steps()[k].1))
                    % n);
            }
        }
        let mut total: u8 = 0;
        let mut k: usize = 0;
        while k < 8
            invariant
                0 <= k <= 8,
                n == self.size(),
                n >= 1,
                rows == cell_rows(self.state),
                shaped(rows, n, n),
                pairs@.len() == 8,
                forall|j: int|
                    0 <= j < 8 ==> (#[trigger] pairs@[j]).0 == wrap(
                        coords.0 + neighbor_steps()[j].0,
                        n,
                    ) && pairs@[j].1 == wrap(coords.1 + neighbor_steps()[j].1, n),
                total == alive_among(self.cells(), n, coords.1 as int, coords.0 as int, k as nat),
                total <= k,
            decreases 8 - k,
        {
            proof {
                let step = neighbor_steps()[k as int];
                lemma_wrap_range(coords.0 + step.0, n);
                lemma_wrap_range(coords.1 + step.1, n);
                lemma_flattened_cell(rows, coords.1 + step.1, coords.0 + step.0);
                assert(pairs@[k as int].0 == wrap(coords.0 + step.0, n));
            }
            if cell_at(&self.state, pairs[k].0, pairs[k].1) {
                total += 1;
            }
            k += 1;
        }
        proof {
            lemma_alive_among_all(self.cells(), n, coords.1 as int, coords.0 as int);
            lemma_wrap_range(coords.0 as int, n);
            lemma_wrap_range(coords.1 as int, n);
            lemma_flattened_cell(rows, coords.1 as int, coords.0 as int);
        }
        // the rule differs for a live cell and a dead one
        if cell_at(&self.state, coords.0, coords.1) {
            total == 2 || total == 3
        } else {
            total == 3
        }
    }

    /// The table of offsets to the eight neighbours, for a grid of `x_size`
    /// rows and `y_size` columns. Each offset is a step of -1, 0 or 1 with
    /// the size of its axis added.
    fn gen_neighbor_offsets(x_size: usize, y_size: usize) -> (t: PairTable)
        requires
            1 <= x_size < usize::MAX,
            1 <= y_size < usize::MAX,
        ensures
            pair_rows(t) == neighbor_offsets(x_size as int, y_size as int),
    {
        let t = table_from_pairs(
            vec![
                [x_size - 1, y_size - 1],
                [x_size - 1, y_size],
                [x_size - 1, y_size + 1],
                [x_size, y_size - 1],
                // no offset for the cell itself
                [x_size, y_size + 1],
                [x_size + 1, y_size - 1],
                [x_size + 1, y_size],
                [x_size + 1, y_size + 1],
            ],
        );
        proof {
            let goal = neighbor_offsets(x_size as int, y_size as int);
            assert forall|k: int| 0 <= k < 8 implies pair_rows(t)[k] == goal[k] by {
                assert(pair_rows(t)[k] =~= goal[k]);
            }
            assert(pair_rows(t) =~= goal);
        }
        t
    }

    /// The table of moduli for a grid of `x_size` rows and `y_size` columns.
    fn gen_boundary(x_size: usize, y_size: usize) -> (t: PairTable)
        ensures
            pair_rows(t) == boundary(x_size as int, y_size as int),
    {
        let t = table_from_pairs(
            vec![
                [x_size, y_size],
                [x_size, y_size],
                [x_size, y_size],
                [x_size, y_size],
                [x_size, y_size],
                [x_size, y_size],
                [x_size, y_size],
                [x_size, y_size],
            ],
        );
        proof {
            let goal = boundary(x_size as int, y_size as int);
            assert forall|k: int| 0 <= k < 8 implies pair_rows(t)[k] == goal[k] by {
                assert(pair_rows(t)[k] =~= goal[k]);
            }
            assert(pair_rows(t) =~= goal);
        }
        t
    }
}

/// How many of the first `count` neighbours of the cell at column `x`, row
/// `y` are alive, in the order of the table of offsets.
pub open spec fn alive_among(cells: Seq<bool>, n: int, x: int, y: int, count: nat) -> int
    decreases count,
{
    if count == 0 {
        0
    } else {
        let step = neighbor_steps()[count - 1];
        alive_among(cells, n, x, y, (count - 1) as nat) + alive_count(
            cells,
            n,
            x + step.1,
            y + step.0,
        )
    }
}

/// The eight neighbours of the table are the eight neighbours of the rule.
pub proof fn lemma_alive_among_all(cells: Seq<bool>, n: int, x: int, y: int)
    ensures
        alive_among(cells, n, x, y, 8) == live_neighbors(cells, n, x, y),
{
    reveal_with_fuel(alive_among, 9);
}

/// The cell at column `x`, row `y` of the flattened array is the cell at the
/// wrapped row and the wrapped column of the array.
proof fn lemma_flattened_cell(rows: Seq<Seq<bool>>, x: int, y: int)
    requires
        rows.len() >= 1,
    ensures
        is_alive(flattened(rows), rows.len() as int, x, y) == rows[wrap(y, rows.len() as int)][wrap(
            x,
            rows.len() as int,
        )],
{
    let n = rows.len() as int;
    lemma_wrap_range(x, n);
    lemma_wrap_range(y, n);
    lemma_index_bound(wrap(x, n), wrap(y, n), n);
    lemma_coords_of_index(wrap(x, n), wrap(y, n), n);
}

} // verus!
