//! A generation as text, for a terminal: one line per row.

use vstd::prelude::*;
use vstd::arithmetic::div_mod::{
    lemma_fundamental_div_mod, lemma_fundamental_div_mod_converse, lemma_mod_bound,
};
use crate::rules::well_formed;

verus! {

/// The character that stands for a cell.
pub open spec fn cell_char(alive: bool) -> char {
    if alive {
        '1'
    } else {
        '0'
    }
}

/// The text of a grid of side `n`: each row is its `n` cells as `1` or `0`,
/// followed by a line feed. The character at position `p` belongs to row
/// `p / (n + 1)`.
pub open spec fn rendered(n: nat, cells: Seq<bool>) -> Seq<char> {
    Seq::new(n * (n + 1), |p: int| text_char(n as int, cells, p))
}

/// The character at position `p` of the text of a grid of side `n`: the
/// line feed that ends a row, or the cell at that column of the row.
pub open spec fn text_char(n: int, cells: Seq<bool>, p: int) -> char {
    if p % (n + 1) == n {
        '\n'
    } else {
        cell_char(cells[(p / (n + 1)) * n + p % (n + 1)])
    }
}

/// Where the cell at index `i` stands in the text: `i / n` line feeds come
/// before it.
proof fn lemma_text_position(i: int, n: int)
    requires
        n >= 1,
        0 <= i,
    ensures
        (i + i / n) / (n + 1) == i / n,
        (i + i / n) % (n + 1) == i % n,
        (i + i / n + 1) / (n + 1) == i / n,
        (i + i / n + 1) % (n + 1) == i % n + 1,
        0 <= i % n < n,
        (i / n) * n + i % n == i,
        (i + 1) % n == 0 <==> i % n == n - 1,
        (i + 1) % n == 0 ==> (i + 1) / n == i / n + 1,
        (i + 1) % n != 0 ==> (i + 1) / n == i / n,
{
    let q = i / n;
    let r = i % n;
    lemma_fundamental_div_mod(i, n);
    lemma_mod_bound(i, n);
    assert(n * q == q * n) by (nonlinear_arith);
    assert(q * (n + 1) == q * n + q) by (nonlinear_arith);
    assert((n + 1) * q == q * (n + 1)) by (nonlinear_arith);
    assert(0 <= q) by (nonlinear_arith)
        requires
            n >= 1,
            0 <= r < n,
            0 <= q * n + r,
    ;
    lemma_fundamental_div_mod_converse(i + q, n + 1, q, r);
    lemma_fundamental_div_mod_converse(i + q + 1, n + 1, q, r + 1);
    if r == n - 1 {
        assert((q + 1) * n == q * n + n) by (nonlinear_arith);
        assert(n * (q + 1) == (q + 1) * n) by (nonlinear_arith);
        lemma_fundamental_div_mod_converse(i + 1, n, q + 1, 0);
    } else {
        lemma_fundamental_div_mod_converse(i + 1, n, q, r + 1);
    }
}

/// `String::push` of std: the character is appended to the text.
#[verifier::external_body]
fn push_char(text: &mut String, c: char)
    ensures
        final(text)@ == old(text)@.push(c),
{
    text.push(c);
}

/// Renders a grid of side `size` as text, one line per row.
pub fn render_cells(size: usize, cells: &[bool]) -> (text: String)
    requires
        well_formed(size as nat, cells@),
    ensures
        text@ == rendered(size as nat, cells@),
{
    let ghost n = size as int;
    let ghost goal = rendered(size as nat, cells@);
    let mut text = String::new();
    let mut i: usize = 0;
    while i < cells.len()
        invariant
            n == size,
            well_formed(size as nat, cells@),
            goal == rendered(size as nat, cells@),
            0 <= i <= cells@.len(),
            text@ == goal.take(i as int + (i as int) / n),
        decreases cells@.len() - i,
    {
        let ghost k = i as int;
        let ghost p = k + k / n;
        proof {
            lemma_text_position(k, n);
            assert(k / n < n) by (nonlinear_arith)
                requires
                    n >= 1,
                    0 <= k % n,
                    (k / n) * n + k % n == k,
                    k < n * n,
            ;
            assert((k / n) * (n + 1) + n + 1 <= n * (n + 1)) by (nonlinear_arith)
                requires
                    0 <= k / n < n,
            ;
            assert((k / n) * (n + 1) == (k / n) * n + k / n) by (nonlinear_arith);
        }
        push_char(&mut text, if cells[i] { '1' } else { '0' });
        assert(text@ == goal.take(p + 1)) by {
            assert(goal[p] == cell_char(cells@[k]));
            assert(goal.take(p + 1) =~= goal.take(p).push(goal[p]));
        }
        if (i + 1) % size == 0 {
            push_char(&mut text, '\n');
            assert(text@ == goal.take(p + 2)) by {
                assert(goal[p + 1] == '\n');
                assert(goal.take(p + 2) =~= goal.take(p + 1).push(goal[p + 1]));
            }
        }
        i += 1;
    }
    proof {
        lemma_fundamental_div_mod_converse(n * n, n, n, 0);
        assert(n * (n + 1) == n * n + n) by (nonlinear_arith);
        assert(goal.take(goal.len() as int) =~= goal);
    }
    text
}

} // verus!
