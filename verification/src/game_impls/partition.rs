//! How the cells of a grid are shared out among workers: each worker gets
//! one run of consecutive indices, and the runs cover the grid without
//! overlap.

use vstd::prelude::*;
use vstd::arithmetic::div_mod::{lemma_fundamental_div_mod, lemma_mod_bound};

verus! {

/// The length that every worker's slice aims at: `cells / threads`, rounded
/// up.
pub open spec fn slice_target(cells: int, threads: int) -> int {
    if cells % threads == 0 {
        cells / threads
    } else {
        cells / threads + 1
    }
}

/// Where the slice of worker `k` begins: `k` targets in, or at the end of
/// the grid if that lies beyond it.
pub open spec fn slice_start(cells: int, threads: int, k: int) -> int {
    if k * slice_target(cells, threads) < cells {
        k * slice_target(cells, threads)
    } else {
        cells
    }
}

/// Where the slice of worker `k` ends: where the next worker's begins, so
/// the last slice is cut off at the end of the grid.
pub open spec fn slice_end(cells: int, threads: int, k: int) -> int {
    slice_start(cells, threads, k + 1)
}

/// The worker whose slice holds index `i`.
pub open spec fn slice_owner(cells: int, threads: int, i: int) -> int {
    i / slice_target(cells, threads)
}

/// The slices `0..count` of the workers, as pairs of a start and an end.
pub open spec fn slices(cells: int, threads: int, count: nat) -> Seq<(usize, usize)> {
    Seq::new(
        count,
        |k: int| (slice_start(cells, threads, k) as usize, slice_end(cells, threads, k) as usize),
    )
}

/// The cells that worker `k` handed back, or none where it handed back
/// nothing.
pub open spec fn part(parts: Seq<Option<Vec<bool>>>, k: int) -> Seq<bool> {
    match parts[k] {
        Some(cells) => cells@,
        None => Seq::empty(),
    }
}

/// Whether the workers handed back a whole generation: one part from each
/// worker, each as long as the worker's slice.
pub open spec fn parts_complete(cells: int, threads: int, parts: Seq<Option<Vec<bool>>>) -> bool {
    &&& parts.len() == threads
    &&& forall|k: int|
        0 <= k < threads ==> (#[trigger] parts[k]) is Some && part(parts, k).len() == slice_end(
            cells,
            threads,
            k,
        ) - slice_start(cells, threads, k)
}

/// The parts put together: the cell at index `i` is taken from the part of
/// the worker that owns `i`, at the place of `i` within that worker's slice.
pub open spec fn merged(cells: int, threads: int, parts: Seq<Option<Vec<bool>>>) -> Seq<bool> {
    Seq::new(
        cells as nat,
        |i: int|
            part(parts, slice_owner(cells, threads, i))[i % slice_target(cells, threads)],
    )
}

/// The target is the least length with which `threads` slices reach the end
/// of the grid.
pub proof fn lemma_slice_target(cells: int, threads: int)
    requires
        cells >= 0,
        threads >= 1,
    ensures
        0 <= slice_target(cells, threads) <= cells,
        threads * slice_target(cells, threads) >= cells,
        cells >= 1 ==> slice_target(cells, threads) >= 1,
        cells >= 1 ==> threads * (slice_target(cells, threads) - 1) < cells,
{
    let q = cells / threads;
    let r = cells % threads;
    lemma_fundamental_div_mod(cells, threads);
    lemma_mod_bound(cells, threads);
    assert(0 <= q <= cells && threads * (q + 1) == threads * q + threads && threads * (q - 1)
        == threads * q - threads) by (nonlinear_arith)
        requires
            threads >= 1,
            0 <= r < threads,
            cells == threads * q + r,
            cells >= 0,
    ;
    if r != 0 {
        assert(q + 1 <= cells) by (nonlinear_arith)
            requires
                threads >= 1,
                0 < r < threads,
                cells == threads * q + r,
                q >= 0,
        ;
    }
}

/// The slices follow one another from the first cell to the last.
pub proof fn lemma_slices_chain(cells: int, threads: int, k: int)
    requires
        cells >= 0,
        threads >= 1,
        0 <= k < threads,
    ensures
        slice_start(cells, threads, 0) == 0,
        0 <= slice_start(cells, threads, k) <= slice_end(cells, threads, k) <= cells,
        slice_end(cells, threads, k) - slice_start(cells, threads, k) <= slice_target(
            cells,
            threads,
        ),
        slice_end(cells, threads, threads - 1) == cells,
{
    let t = slice_target(cells, threads);
    lemma_slice_target(cells, threads);
    assert(0 * t == 0 && (k + 1) * t == k * t + t && 0 <= k * t) by (nonlinear_arith)
        requires
            0 <= k,
            0 <= t,
    ;
    assert((threads - 1 + 1) * t == threads * t) by (nonlinear_arith);
}

/// Every cell belongs to the slice of exactly one worker: the slice of its
/// owner holds it, and no other slice does.
pub proof fn law_slices_partition(cells: int, threads: int, i: int, j: int)
    requires
        threads >= 1,
        0 <= i < cells,
    ensures
        0 <= slice_owner(cells, threads, i) < threads,
        slice_start(cells, threads, j) <= i < slice_end(cells, threads, j) <==> j == slice_owner(
            cells,
            threads,
            i,
        ),
        i - slice_start(cells, threads, slice_owner(cells, threads, i)) == i % slice_target(
            cells,
            threads,
        ),
{
    let t = slice_target(cells, threads);
    let k = slice_owner(cells, threads, i);
    lemma_slice_target(cells, threads);
    lemma_fundamental_div_mod(i, t);
    lemma_mod_bound(i, t);
    let r = i % t;
    assert(t * k == k * t) by (nonlinear_arith);
    assert(0 <= k && (k + 1) * t == k * t + t) by (nonlinear_arith)
        requires
            t >= 1,
            0 <= r < t,
            0 <= k * t + r,
    ;
    assert(k < threads) by (nonlinear_arith)
        requires
            threads * t >= cells,
            0 <= r < t,
            threads >= 1,
            k >= 0,
            k * t + r < cells,
    ;
    assert((j + 1) * t == j * t + t) by (nonlinear_arith);
    if j < k {
        assert((j + 1) * t <= k * t) by (nonlinear_arith)
            requires
                j + 1 <= k,
                t >= 0,
        ;
    }
    if j > k {
        assert((k + 1) * t <= j * t) by (nonlinear_arith)
            requires
                k + 1 <= j,
                t >= 0,
        ;
    }
}

/// The length that every worker's slice aims at, for `cells` cells shared
/// out among `threads` workers.
pub fn thread_slice_size(cells: usize, threads: usize) -> (target: usize)
    requires
        threads >= 1,
    ensures
        target == slice_target(cells as int, threads as int),
{
    proof {
        lemma_slice_target(cells as int, threads as int);
    }
    if cells % threads == 0 {
        cells / threads
    } else {
        cells / threads + 1
    }
}

/// The slices of `threads` workers over `cells` cells, in the workers'
/// order: each is the half-open range from its start to its end.
pub fn partition(cells: usize, threads: usize) -> (ranges: Vec<(usize, usize)>)
    requires
        threads >= 1,
    ensures
        ranges@ == slices(cells as int, threads as int, threads as nat),
{
    let target = thread_slice_size(cells, threads);
    let mut ranges: Vec<(usize, usize)> = Vec::with_capacity(threads);
    let mut offset: usize = 0;
    let mut k: usize = 0;
    while k < threads
        invariant
            threads >= 1,
            target == slice_target(cells as int, threads as int),
            0 <= k <= threads,
            offset == slice_start(cells as int, threads as int, k as int),
            offset <= cells,
            ranges@ == slices(cells as int, threads as int, k as nat),
        decreases threads - k,
    {
        proof {
            lemma_slices_chain(cells as int, threads as int, k as int);
            assert((k + 1) * target == k * target + target) by (nonlinear_arith);
        }
        let length = if target < cells - offset {
            target
        } else {
            cells - offset
        };
        ranges.push((offset, offset + length));
        assert(ranges@ =~= slices(cells as int, threads as int, (k + 1) as nat));
        offset += length;
        k += 1;
    }
    ranges
}

} // verus!
