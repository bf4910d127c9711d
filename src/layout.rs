//! The grid written out as one string, row after row, and read back by cutting
//! that string into rows of equal length.

use crate::grid::{is_rect, lemma_linear_bound};
use crate::text::push_char;
use vstd::arithmetic::div_mod::{lemma_div_by_multiple, lemma_fundamental_div_mod, lemma_mod_pos_bound};
use vstd::arithmetic::mul::{lemma_mul_inequality, lemma_mul_is_distributive_add_other_way};
use vstd::prelude::*;

verus! {

/// The rows of a grid held as vectors.
pub open spec fn grid_view(grid: &Vec<Vec<char>>) -> Seq<Seq<char>> {
    Seq::new(grid@.len(), |r: int| grid@[r]@)
}

/// The rows of `g` written one after the other, without separators.
pub open spec fn flatten(g: Seq<Seq<char>>) -> Seq<char>
    decreases g.len(),
{
    if g.len() == 0 {
        Seq::empty()
    } else {
        flatten(g.drop_last()) + g.last()
    }
}

/// `s` cut into consecutive rows of `cols` characters (a shorter tail is dropped).
pub open spec fn chunk(s: Seq<char>, cols: nat) -> Seq<Seq<char>> {
    Seq::new(s.len() / cols, |r: int| s.subrange(r * cols, r * cols + cols))
}

pub proof fn lemma_flatten_len(g: Seq<Seq<char>>, rows: nat, cols: nat)
    requires
        is_rect(g, rows, cols),
    ensures
        flatten(g).len() == rows * cols,
    decreases g.len(),
{
    if g.len() > 0 {
        lemma_flatten_len(g.drop_last(), (rows - 1) as nat, cols);
        lemma_mul_is_distributive_add_other_way(cols as int, rows - 1, 1);
    }
}

/// Cell `(r, c)` sits at position `r * cols + c` of the flattened grid.
pub proof fn lemma_flatten_index(g: Seq<Seq<char>>, rows: nat, cols: nat, r: int, c: int)
    requires
        is_rect(g, rows, cols),
        0 <= r < rows,
        0 <= c < cols,
    ensures
        flatten(g)[r * cols + c] == g[r][c],
    decreases g.len(),
{
    let rest = g.drop_last();
    lemma_flatten_len(rest, (rows - 1) as nat, cols);
    if r < rows - 1 {
        lemma_linear_bound(r, c, rows - 1, cols as int);
        lemma_flatten_index(rest, (rows - 1) as nat, cols, r, c);
    }
}

/// Flattening a `rows` by `cols` grid and cutting the result into rows of `cols`
/// characters gives back the grid, whatever its cells hold.
pub proof fn lemma_chunk_flatten(g: Seq<Seq<char>>, rows: nat, cols: nat)
    requires
        cols > 0,
        is_rect(g, rows, cols),
    ensures
        chunk(flatten(g), cols) == g,
{
    let s = flatten(g);
    lemma_flatten_len(g, rows, cols);
    lemma_div_by_multiple(rows as int, cols as int);
    assert forall|r: int| 0 <= r < rows implies #[trigger] chunk(s, cols)[r] == g[r] by {
        lemma_mul_inequality(r + 1, rows as int, cols as int);
        lemma_mul_is_distributive_add_other_way(cols as int, r, 1);
        assert forall|c: int| 0 <= c < cols implies #[trigger] s.subrange(r * cols, r * cols + cols)[c]
            == g[r][c] by {
            lemma_flatten_index(g, rows, cols, r, c);
        }
        assert(s.subrange(r * cols, r * cols + cols) =~= g[r]);
    }
    assert(chunk(s, cols) =~= g);
}

/// The grid as one string, row after row.
pub fn grid_to_string(grid: &Vec<Vec<char>>) -> (s: String)
    ensures
        s@ == flatten(grid_view(grid)),
{
    let ghost g = grid_view(grid);
    let mut s = String::new();
    let mut r: usize = 0;
    while r < grid.len()
        invariant
            g == grid_view(grid),
            r <= g.len(),
            s@ == flatten(g.take(r as int)),
        decreases g.len() - r,
    {
        let mut c: usize = 0;
        assert(g[r as int].take(0) =~= Seq::<char>::empty());
        while c < grid[r].len()
            invariant
                g == grid_view(grid),
                r < g.len(),
                c <= g[r as int].len(),
                s@ == flatten(g.take(r as int)) + g[r as int].take(c as int),
            decreases g[r as int].len() - c,
        {
            push_char(&mut s, grid[r][c]);
            assert(g[r as int].take(c + 1) =~= g[r as int].take(c as int).push(g[r as int][c as int]));
            c = c + 1;
        }
        assert(g.take(r + 1).drop_last() =~= g.take(r as int));
        assert(g[r as int].take(c as int) =~= g[r as int]);
        r = r + 1;
    }
    assert(g.take(r as int) =~= g);
    s
}

/// `s` cut into rows of `cols` characters; a tail shorter than a row is dropped.
pub fn string_to_grid(s: &str, cols: usize) -> (grid: Vec<Vec<char>>)
    requires
        cols > 0,
    ensures
        grid_view(&grid) == chunk(s@, cols as nat),
{
    let n = s.unicode_len();
    let rows = n / cols;
    proof {
        lemma_fundamental_div_mod(n as int, cols as int);
        lemma_mod_pos_bound(n as int, cols as int);
    }
    let mut grid: Vec<Vec<char>> = Vec::new();
    let mut r: usize = 0;
    while r < rows
        invariant
            n == s@.len(),
            rows == n / cols,
            cols > 0,
            n == cols * rows + n % cols,
            0 <= n % cols,
            r <= rows,
            grid@.len() == r,
            forall|i: int|
                0 <= i < r ==> #[trigger] grid@[i]@ == s@.subrange(i * cols, i * cols + cols),
        decreases rows - r,
    {
        proof {
            lemma_mul_inequality(r + 1, rows as int, cols as int);
            lemma_mul_is_distributive_add_other_way(cols as int, r as int, 1);
            assert(cols * rows == rows * cols) by (nonlinear_arith);
        }
        let base = r * cols;
        let mut line: Vec<char> = Vec::new();
        let mut c: usize = 0;
        while c < cols
            invariant
                n == s@.len(),
                base == r * cols,
                base + cols <= n,
                c <= cols,
                line@ == s@.subrange(base as int, base + c),
            decreases cols - c,
        {
            let ch = s.get_char(base + c);
            line.push(ch);
            assert(line@ =~= s@.subrange(base as int, base + c + 1));
            c = c + 1;
        }
        grid.push(line);
        r = r + 1;
    }
    assert(grid_view(&grid) =~= chunk(s@, cols as nat));
    grid
}

} // verus!
