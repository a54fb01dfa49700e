//! Random cells, for grids to start from. The samples come from the rand
//! crate; nothing is known of them but how many there are.

use vstd::prelude::*;

verus! {

/// `rand::random` of the rand crate, for a `bool`: a sample from the thread's
/// generator. Nothing is promised of the value.
#[verifier::external_body]
fn random_bool() -> bool {
    rand::random()
}

/// `count` cells, each sampled on its own.
pub fn random_cells(count: usize) -> (cells: Vec<bool>)
    ensures
        cells@.len() == count,
{
    let mut cells: Vec<bool> = Vec::with_capacity(count);
    let mut i: usize = 0;
    while i < count
        invariant
            0 <= i <= count,
            cells@.len() == i,
        decreases count - i,
    {
        cells.push(random_bool());
        i += 1;
    }
    cells
}

} // verus!
