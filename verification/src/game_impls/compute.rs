//! The compute engine, as far as the host goes.
//!
//! On a device, one generation is an image with one 8-bit texel per cell,
//! and the next one is written by a kernel that runs once for every cell,
//! in workgroups of 8 by 8 invocations. This file holds what the host has
//! to get right for that: how cells become texels and back, how many
//! workgroups cover a grid, and what a single invocation of the kernel
//! reads and writes. `GameState` runs the kernel on the host, invocation by
//! invocation, over the same range of invocations that a device is asked
//! for.

use vstd::prelude::*;
use crate::render::render_cells;
use crate::rules::{
    alive_count, is_alive, lemma_cell_index_range, lemma_coords_of_index, lemma_index_bound,
    lemma_index_coords, lemma_neighbors_periodic, lemma_wrap_range, lemma_wrap_turn,
    live_neighbors, next_alive, next_cell, next_generation, well_formed,
};
use crate::random::random_cells;
use crate::{Gol, GolError};

verus! {

/// The side of a workgroup: the kernel is declared with a local size of
/// 8 by 8 by 1.
pub const LOCAL_SIZE: u32 = 8;

/// The texel that stands for a cell: 1 for a live one, 0 for a dead one.
pub open spec fn encode(alive: bool) -> u8 {
    if alive {
        1
    } else {
        0
    }
}

/// The cell that a texel stands for: any texel but 0 is a live cell.
pub open spec fn decode(texel: u8) -> bool {
    texel != 0
}

/// The texels of a sequence of cells.
pub open spec fn encoded(cells: Seq<bool>) -> Seq<u8> {
    Seq::new(cells.len(), |i: int| encode(cells[i]))
}

/// The cells of a sequence of texels.
pub open spec fn decoded(texels: Seq<u8>) -> Seq<bool> {
    Seq::new(texels.len(), |i: int| decode(texels[i]))
}

/// How many workgroups cover `extent` cells along one axis: `extent / 8`,
/// rounded up.
pub open spec fn group_count(extent: int) -> int {
    if extent % 8 == 0 {
        extent / 8
    } else {
        extent / 8 + 1
    }
}

/// Decoding what was encoded gives the cells back.
pub proof fn law_decode_encode(cells: Seq<bool>)
    ensures
        decoded(encoded(cells)) == cells,
{
    assert(decoded(encoded(cells)) =~= cells);
}

/// The workgroups along an axis cover it, and the last of them is needed.
pub proof fn lemma_groups_cover(extent: int)
    requires
        extent >= 1,
    ensures
        group_count(extent) == (extent - 1) / 8 + 1,
        group_count(extent) * 8 >= extent,
        (group_count(extent) - 1) * 8 < extent,
{
}

/// The texels of `cells`, one for each cell.
pub fn encode_cells(cells: &[bool]) -> (texels: Vec<u8>)
    ensures
        texels@ == encoded(cells@),
{
    let mut texels: Vec<u8> = Vec::with_capacity(cells.len());
    let mut i: usize = 0;
    while i < cells.len()
        invariant
            0 <= i <= cells@.len(),
            texels@ == encoded(cells@).take(i as int),
        decreases cells@.len() - i,
    {
        texels.push(if cells[i] { 1u8 } else { 0u8 });
        assert(encoded(cells@).take(i + 1) =~= encoded(cells@).take(i as int).push(
            encode(cells@[i as int]),
        ));
        i += 1;
    }
    assert(encoded(cells@).take(cells@.len() as int) =~= encoded(cells@));
    texels
}

/// The cells of `texels`, one for each texel.
pub fn decode_cells(texels: &[u8]) -> (cells: Vec<bool>)
    ensures
        cells@ == decoded(texels@),
{
    let mut cells: Vec<bool> = Vec::with_capacity(texels.len());
    let mut i: usize = 0;
    while i < texels.len()
        invariant
            0 <= i <= texels@.len(),
            cells@ == decoded(texels@).take(i as int),
        decreases texels@.len() - i,
    {
        cells.push(texels[i] > 0u8);
        assert(decoded(texels@).take(i + 1) =~= decoded(texels@).take(i as int).push(
            decode(texels@[i as int]),
        ));
        i += 1;
    }
    assert(decoded(texels@).take(texels@.len() as int) =~= decoded(texels@));
    cells
}

/// The numbers of workgroups to dispatch for a grid of `size.0` by `size.1`
/// cells: enough groups of 8 along each of the two axes, and one layer.
pub fn work_group_counts(size: (usize, usize)) -> (counts: [u32; 3])
    requires
        1 <= size.0 <= u32::MAX,
        1 <= size.1 <= u32::MAX,
    ensures
        counts[0] == group_count(size.0 as int),
        counts[1] == group_count(size.1 as int),
        counts[2] == 1,
{
    proof {
        lemma_groups_cover(size.0 as int);
        lemma_groups_cover(size.1 as int);
    }
    [(size.0 as u32 - 1) / LOCAL_SIZE + 1, (size.1 as u32 - 1) / LOCAL_SIZE + 1, 1]
}

/// The extent of the image that holds a grid of side `size`: `size` texels
/// wide, `size` texels high, one texel deep.
pub fn image_extent(size: usize) -> (extent: [u32; 3])
    requires
        size <= u32::MAX,
    ensures
        extent[0] == size,
        extent[1] == size,
        extent[2] == 1,
{
    [size as u32, size as u32, 1]
}

/// How many texels an image of the given extent holds.
pub fn image_texels(extent: [u32; 3]) -> (texels: u128)
    ensures
        texels == extent[0] * extent[1] * extent[2],
{
    assert(extent[0] * extent[1] <= 0xffff_ffff * 0xffff_ffff) by (nonlinear_arith)
        requires
            0 <= extent[0] <= 0xffff_ffff,
            0 <= extent[1] <= 0xffff_ffff,
    ;
    assert((extent[0] * extent[1]) * extent[2] <= (0xffff_ffff * 0xffff_ffff) * 0xffff_ffff)
        by (nonlinear_arith)
        requires
            0 <= extent[0] * extent[1] <= 0xffff_ffff * 0xffff_ffff,
            0 <= extent[2] <= 0xffff_ffff,
    ;
    extent[0] as u128 * extent[1] as u128 * extent[2] as u128
}

/// What the kernel's `is_alive` reads: the texel at column `x`, row `y`,
/// both taken modulo the size of the game, as 1 or 0.
fn texel_alive(game_size: [u32; 2], src: &[u8], x: usize, y: usize) -> (count: u8)
    requires
        game_size[0] >= 1,
        game_size[0] == game_size[1],
        src@.len() == game_size[0] * game_size[1],
    ensures
        count == alive_count(decoded(src@), game_size[0] as int, x as int, y as int),
{
    let width = game_size[0] as usize;
    let height = game_size[1] as usize;
    proof {
        lemma_cell_index_range(width as int, x as int, y as int);
        lemma_wrap_range(x as int, width as int);
        lemma_wrap_range(y as int, width as int);
        assert(0 <= (y % height) * width <= (y % height) * width + (x % width) < src.len());
    }
    if src[(y % height) * width + (x % width)] > 0u8 {
        1
    } else {
        0
    }
}

/// One invocation of the kernel, with the global invocation id `(gx, gy)`.
/// An invocation beyond the grid writes nothing: the dispatch is rounded up
/// to whole workgroups and so may reach over the border. Every other
/// invocation writes the next state of its own cell, from the cell's texel
/// and those of its eight neighbours around the torus.
///
/// The kernel adds the size of the game to its coordinates before it steps
/// to a neighbour, so that no coordinate is negative before the modulo.
pub fn kernel_main(game_size: [u32; 2], src: &[u8], dest: &mut Vec<u8>, gx: u64, gy: u64)
    requires
        game_size[0] >= 1,
        game_size[0] == game_size[1],
        src@.len() == game_size[0] * game_size[1],
        old(dest)@.len() == src@.len(),
    ensures
        final(dest)@.len() == old(dest)@.len(),
        gx >= game_size[0] || gy >= game_size[1] ==> final(dest)@ == old(dest)@,
        gx < game_size[0] && gy < game_size[1] ==> final(dest)@ == old(dest)@.update(
            gy * game_size[0] + gx,
            encode(next_alive(decoded(src@), game_size[0] as int, gx as int, gy as int)),
        ),
{
    if gx >= game_size[0] as u64 || gy >= game_size[1] as u64 {
        return ;
    }
    let ghost n = game_size[0] as int;
    let ghost cells = decoded(src@);
    let width = game_size[0] as usize;
    proof {
        lemma_index_bound(gx as int, gy as int, n);
        assert(0 <= gy * width <= gy * width + gx < src.len());
        if n >= 2 {
            assert(n + n <= n * n) by (nonlinear_arith)
                requires
                    n >= 2,
            ;
        }
    }
    let id_x = width + gx as usize;
    let id_y = game_size[1] as usize + gy as usize;
    let total: u8 = texel_alive(game_size, src, id_x - 1, id_y - 1) + texel_alive(
        game_size,
        src,
        id_x,
        id_y - 1,
    ) + texel_alive(game_size, src, id_x + 1, id_y - 1) + texel_alive(
        game_size,
        src,
        id_x - 1,
        id_y,
    ) + texel_alive(game_size, src, id_x + 1, id_y) + texel_alive(
        game_size,
        src,
        id_x - 1,
        id_y + 1,
    ) + texel_alive(game_size, src, id_x, id_y + 1) + texel_alive(
        game_size,
        src,
        id_x + 1,
        id_y + 1,
    );
    let index = gy as usize * width + gx as usize;
    let this_is_alive = src[index] > 0u8;
    proof {
        assert(total == live_neighbors(cells, n, n + gx, n + gy));
        lemma_neighbors_periodic(cells, n, n + gx, n + gy);
        lemma_wrap_turn(gx as int, n);
        lemma_wrap_turn(gy as int, n);
        lemma_wrap_range(gx as int, n);
        lemma_wrap_range(gy as int, n);
        assert(this_is_alive == is_alive(cells, n, gx as int, gy as int));
    }
    let this_stays_alive = if this_is_alive {
        total == 2 || total == 3
    } else {
        total == 3
    };
    dest.set(index, if this_stays_alive { 1u8 } else { 0u8 });
}

/// What a dispatch of `groups_x` by `groups_y` workgroups leaves in a fresh
/// image: the kernel's texel for every cell that an invocation reaches, and
/// 0 wherever none does.
pub open spec fn dispatched(game_size: int, src: Seq<u8>, groups_x: int, groups_y: int) -> Seq<u8> {
    Seq::new(
        src.len(),
        |i: int|
            if i % game_size < groups_x * 8 && i / game_size < groups_y * 8 {
                encode(next_cell(decoded(src), game_size, i))
            } else {
                0u8
            },
    )
}

/// A dispatch of the kernel over `groups_x` by `groups_y` workgroups of 8 by
/// 8 invocations each, from the image `src` into a fresh image. Which
/// invocation runs first does not matter, for no two of them write the same
/// texel: they run here row by row.
pub fn dispatch(game_size: [u32; 2], src: &[u8], groups_x: u32, groups_y: u32) -> (dest: Vec<u8>)
    requires
        game_size[0] >= 1,
        game_size[0] == game_size[1],
        src@.len() == game_size[0] * game_size[1],
    ensures
        dest@ == dispatched(game_size[0] as int, src@, groups_x as int, groups_y as int),
{
    let ghost n = game_size[0] as int;
    let ghost goal = dispatched(n, src@, groups_x as int, groups_y as int);
    let across: u64 = groups_x as u64 * LOCAL_SIZE as u64;
    let down: u64 = groups_y as u64 * LOCAL_SIZE as u64;
    let mut dest: Vec<u8> = vec![0u8; src.len()];
    proof {
        assert forall|x: int, y: int| 0 <= x < n && 0 <= y < n implies #[trigger] dest@[y * n + x]
            == 0u8 by {
            lemma_index_bound(x, y, n);
        }
    }
    let mut gy: u64 = 0;
    while gy < down
        invariant
            n == game_size[0],
            n >= 1,
            game_size[0] == game_size[1],
            src@.len() == n * n,
            dest@.len() == src@.len(),
            across == groups_x * 8,
            down == groups_y * 8,
            goal == dispatched(n, src@, groups_x as int, groups_y as int),
            0 <= gy <= down,
            forall|x: int, y: int|
                0 <= x < n && 0 <= y < n ==> #[trigger] dest@[y * n + x] == (if y < gy {
                    goal[y * n + x]
                } else {
                    0u8
                }),
        decreases down - gy,
    {
        let mut gx: u64 = 0;
        while gx < across
            invariant
                n == game_size[0],
                n >= 1,
                game_size[0] == game_size[1],
                src@.len() == n * n,
                dest@.len() == src@.len(),
                across == groups_x * 8,
                down == groups_y * 8,
                goal == dispatched(n, src@, groups_x as int, groups_y as int),
                0 <= gy < down,
                0 <= gx <= across,
                forall|x: int, y: int|
                    0 <= x < n && 0 <= y < n ==> #[trigger] dest@[y * n + x] == (if y < gy || (y
                        == gy && x < gx) {
                        goal[y * n + x]
                    } else {
                        0u8
                    }),
            decreases across - gx,
        {
            let ghost before = dest@;
            kernel_main(game_size, src, &mut dest, gx, gy);
            proof {
                assert forall|x: int, y: int| 0 <= x < n && 0 <= y < n implies #[trigger] dest@[y
                    * n + x] == (if y < gy || (y == gy && x < gx + 1) {
                    goal[y * n + x]
                } else {
                    0u8
                }) by {
                    lemma_index_bound(x, y, n);
                    lemma_coords_of_index(x, y, n);
                    if gx < n && gy < n {
                        lemma_index_bound(gx as int, gy as int, n);
                        lemma_coords_of_index(gx as int, gy as int, n);
                        if x == gx && y == gy {
                        } else {
                            lemma_distinct_cells(x, y, gx as int, gy as int, n);
                            assert(dest@[y * n + x] == before[y * n + x]);
                        }
                    }
                }
            }
            gx += 1;
        }
        proof {
            assert forall|x: int, y: int| 0 <= x < n && 0 <= y < n implies #[trigger] dest@[y * n
                + x] == (if y < gy + 1 {
                goal[y * n + x]
            } else {
                0u8
            }) by {
                lemma_index_bound(x, y, n);
                lemma_coords_of_index(x, y, n);
            }
        }
        gy += 1;
    }
    proof {
        assert forall|i: int| 0 <= i < n * n implies dest@[i] == goal[i] by {
            lemma_index_coords(i, n);
            let x = i % n;
            let y = i / n;
            assert(dest@[y * n + x] == (if y < down {
                goal[y * n + x]
            } else {
                0u8
            }));
        }
        assert(dest@ =~= goal);
    }
    dest
}

/// Two cells at different coordinates have different indices.
proof fn lemma_distinct_cells(x: int, y: int, u: int, v: int, n: int)
    requires
        n >= 1,
        0 <= x < n,
        0 <= y < n,
        0 <= u < n,
        0 <= v < n,
        x != u || y != v,
    ensures
        y * n + x != v * n + u,
{
    lemma_coords_of_index(x, y, n);
    lemma_coords_of_index(u, v, n);
}

/// Where the workgroups cover the grid, the dispatch leaves the texels of
/// the next generation: every cell is reached by an invocation of its own.
pub proof fn law_dispatch_computes_generation(n: nat, cells: Seq<bool>)
    requires
        well_formed(n, cells),
    ensures
        decoded(
            dispatched(n as int, encoded(cells), group_count(n as int), group_count(n as int)),
        ) == next_generation(n, cells),
{
    let m = n as int;
    let image = dispatched(m, encoded(cells), group_count(m), group_count(m));
    law_decode_encode(cells);
    lemma_groups_cover(m);
    assert forall|i: int| 0 <= i < cells.len() implies decoded(image)[i] == next_generation(
        n,
        cells,
    )[i] by {
        lemma_index_coords(i, m);
    }
    assert(decoded(image) =~= next_generation(n, cells));
}

/// One generation, as the compute engine holds it: the image of its cells,
/// and the record of the game's size that the kernel reads. Both are held in
/// the host's memory here, and a step runs the dispatch on the host; a
/// caller with a device sends `texels` and `bounds` to it, and takes what it
/// reads back through `from_texels`.
#[derive(Debug)]
pub struct GameState {
    size: (usize, usize),
    game_state: Vec<u8>,
    bounds_buffer: [u32; 2],
}

impl Gol for GameState {
    closed spec fn size(&self) -> nat {
        self.size.0 as nat
    }

    closed spec fn cells(&self) -> Seq<bool> {
        decoded(self.game_state@)
    }

    fn from_slice(size: usize, slice: &[bool]) -> (made: Result<Self, GolError>)
        ensures
            made matches Ok(game) ==> game.image() == encoded(slice@),
    {
        let len = slice.len();
        match size.checked_mul(size) {
            Some(total) => {
                if total == len {
                    let game_state = encode_cells(slice);
                    proof {
                        law_decode_encode(slice@);
                        lemma_side_is_u32(size as int);
                    }
                    Ok(
                        GameState {
                            size: (size, size),
                            game_state,
                            bounds_buffer: [size as u32, size as u32],
                        },
                    )
                } else {
                    Err(GolError::ShapeMismatch)
                }
            },
            None => Err(GolError::ShapeMismatch),
        }
    }

    fn to_vec(&self) -> (out: Vec<bool>) {
        proof {
            use_type_invariant(self);
        }
        decode_cells(self.game_state.as_slice())
    }

    fn to_next(&self) -> (next: Self)
        ensures
            next.image() == encoded(next_generation(self.size(), self.cells())),
    {
        proof {
            use_type_invariant(self);
        }
        let work_group_counts = work_group_counts(self.size);
        let next_state = dispatch(
            self.bounds_buffer,
            self.game_state.as_slice(),
            work_group_counts[0],
            work_group_counts[1],
        );
        proof {
            let n = self.size.0 as int;
            lemma_groups_cover(n);
            let goal = next_generation(self.size(), self.cells());
            assert forall|i: int| 0 <= i < n * n implies decoded(next_state@)[i] == goal[i] by {
                lemma_index_coords(i, n);
            }
            assert(decoded(next_state@) =~= goal);
            assert(next_state@ =~= encoded(goal));
        }
        GameState { size: self.size, game_state: next_state, bounds_buffer: self.bounds_buffer }
    }

    fn render(&self) -> (text: String) {
        proof {
            use_type_invariant(self);
        }
        let cells = self.to_vec();
        render_cells(self.size.0, cells.as_slice())
    }
}

/// A side whose square fits in `usize` fits in 32 bits.
proof fn lemma_side_is_u32(n: int)
    requires
        n >= 0,
        n * n <= usize::MAX,
    ensures
        n <= u32::MAX,
{
    if n > u32::MAX {
        assert(n * n >= 0x1_0000_0000 * 0x1_0000_0000) by (nonlinear_arith)
            requires
                n >= 0x1_0000_0000,
        ;
    }
}

impl GameState {
    #[verifier::type_invariant]
    spec fn inv(&self) -> bool {
        &&& self.size.0 >= 1
        &&& self.size.1 == self.size.0
        &&& self.bounds_buffer[0] == self.size.0
        &&& self.bounds_buffer[1] == self.size.1
        &&& self.game_state@.len() == self.size.0 * self.size.1
    }

    /// A grid of side `size` in which every cell is sampled on its own.
    pub fn from_random(size: usize) -> (game: Self)
        requires
            size >= 1,
            size * size <= usize::MAX,
        ensures
            game.size() == size,
            well_formed(game.size(), game.cells()),
            forall|i: int| 0 <= i < game.image().len() ==> game.image()[i] <= 1,
    {
        let cells = random_cells(size * size);
        match Self::from_slice(size, cells.as_slice()) {
            Ok(game) => game,
            Err(_) => vstd::pervasive::unreached(),
        }
    }

    /// The side length of the grid.
    pub fn game_size(&self) -> (size: usize)
        ensures
            size == self.size(),
            size >= 1,
            size * size == self.cells().len(),
    {
        proof {
            use_type_invariant(self);
        }
        self.size.0
    }

    /// The image: one texel for every cell, row by row.
    pub closed spec fn image(&self) -> Seq<u8> {
        self.game_state@
    }

    /// The generation of side `size` that an image read back from a device
    /// holds. An image that has not one texel for every cell is what a
    /// failed dispatch leaves, and no generation.
    pub fn from_texels(size: usize, texels: Vec<u8>) -> (made: Result<Self, GolError>)
        requires
            size >= 1,
        ensures
            match made {
                Ok(game) => {
                    &&& texels@.len() == size * size
                    &&& game.size() == size
                    &&& game.image() == texels@
                    &&& game.cells() == decoded(texels@)
                },
                Err(e) => e == GolError::DispatchFailure && texels@.len() != size * size,
            },
    {
        let len = texels.len();
        match size.checked_mul(size) {
            Some(total) => {
                if total == len {
                    proof {
                        lemma_side_is_u32(size as int);
                    }
                    Ok(
                        GameState {
                            size: (size, size),
                            game_state: texels,
                            bounds_buffer: [size as u32, size as u32],
                        },
                    )
                } else {
                    Err(GolError::DispatchFailure)
                }
            },
            None => Err(GolError::DispatchFailure),
        }
    }

    /// The texels of the image, row by row: what is sent to a device.
    pub fn texels(&self) -> (texels: Vec<u8>)
        ensures
            texels@ == self.image(),
            texels@.len() == self.size() * self.size(),
            decoded(texels@) == self.cells(),
    {
        proof {
            use_type_invariant(self);
        }
        self.game_state.clone()
    }

    /// The record of the game's size that the kernel reads: the width and the
    /// height of the grid.
    pub fn bounds(&self) -> (bounds: [u32; 2])
        ensures
            bounds[0] == self.size(),
            bounds[1] == self.size(),
    {
        proof {
            use_type_invariant(self);
        }
        self.bounds_buffer
    }
}

} // verus!
