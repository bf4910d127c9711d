//! The mathematical model of a grid: a sequence of rows of characters, where
//! `EMPTY` marks a cell that no word has claimed yet.

use crate::direction::Direction;
use vstd::arithmetic::div_mod::{lemma_fundamental_div_mod, lemma_mod_pos_bound};
use vstd::arithmetic::mul::{lemma_mul_inequality, lemma_mul_is_distributive_add_other_way};
use vstd::prelude::*;

verus! {

/// The marker of a cell that holds no letter.
pub const EMPTY: char = '?';

/// Number of `EMPTY` cells in one row.
pub open spec fn count_row(row: Seq<char>) -> nat
    decreases row.len(),
{
    if row.len() == 0 {
        0
    } else {
        count_row(row.drop_last()) + if row.last() == EMPTY {
            1nat
        } else {
            0nat
        }
    }
}

/// Number of `EMPTY` cells in the whole grid.
pub open spec fn count_empty(g: Seq<Seq<char>>) -> nat
    decreases g.len(),
{
    if g.len() == 0 {
        0
    } else {
        count_empty(g.drop_last()) + count_row(g.last())
    }
}

/// `g` has `rows` rows of `cols` cells each.
pub open spec fn is_rect(g: Seq<Seq<char>>, rows: nat, cols: nat) -> bool {
    &&& g.len() == rows
    &&& forall|r: int| 0 <= r < g.len() ==> #[trigger] g[r].len() == cols
}

/// `(r, c)` names a cell of `g`.
pub open spec fn in_grid(g: Seq<Seq<char>>, r: int, c: int) -> bool {
    0 <= r < g.len() && 0 <= c < g[r].len()
}

/// How far the `i`-th step moves along one axis, for a delta of -1, 0 or 1.
pub open spec fn offset(delta: isize, i: int) -> int {
    if delta > 0 {
        i
    } else if delta < 0 {
        -i
    } else {
        0
    }
}

/// Row of the `i`-th letter of a word that starts in row `row` and runs along `d`.
pub open spec fn path_row(row: int, d: Direction, i: int) -> int {
    row + offset(d.y_dir, i)
}

/// Column of the `i`-th letter of a word that starts in column `col` and runs along `d`.
pub open spec fn path_col(col: int, d: Direction, i: int) -> int {
    col + offset(d.x_dir, i)
}

/// The cell `(r, c)` is one of the first `n` cells of the path.
pub open spec fn on_path(row: int, col: int, d: Direction, n: int, r: int, c: int) -> bool {
    exists|i: int| 0 <= i < n && path_row(row, d, i) == r && path_col(col, d, i) == c
}

/// The `i`-th letter of `w` may go to its cell: the cell lies inside the grid and
/// is either empty or already holds that very letter.
pub open spec fn step_fits(
    g: Seq<Seq<char>>,
    row: int,
    col: int,
    d: Direction,
    w: Seq<char>,
    i: int,
) -> bool {
    let r = path_row(row, d, i);
    let c = path_col(col, d, i);
    in_grid(g, r, c) && (g[r][c] == EMPTY || g[r][c] == w[i])
}

/// Every letter of `w`, laid from `(row, col)` along `d`, lands inside the grid
/// without contradicting a letter already there.
pub open spec fn word_fits(g: Seq<Seq<char>>, row: int, col: int, d: Direction, w: Seq<char>) -> bool {
    forall|i: int| 0 <= i < w.len() ==> #[trigger] step_fits(g, row, col, d, w, i)
}

/// How many of the first `n` cells of the path are still empty.
pub open spec fn newly_filled(
    g: Seq<Seq<char>>,
    row: int,
    col: int,
    d: Direction,
    n: int,
) -> nat
    decreases n,
{
    if n <= 0 {
        0
    } else {
        newly_filled(g, row, col, d, n - 1) + if g[path_row(row, d, n - 1)][path_col(
            col,
            d,
            n - 1,
        )] == EMPTY {
            1nat
        } else {
            0nat
        }
    }
}

/// The word fits, and writing it leaves at least `reserved` cells empty.
pub open spec fn can_place(
    g: Seq<Seq<char>>,
    reserved: nat,
    row: int,
    col: int,
    d: Direction,
    w: Seq<char>,
) -> bool {
    &&& word_fits(g, row, col, d, w)
    &&& reserved + newly_filled(g, row, col, d, w.len() as int) <= count_empty(g)
}

/// `new` is `old` with the letters of `w` written from `(row, col)` along `d`:
/// the shape is kept, each letter stands in its cell, and every other cell is unchanged.
pub open spec fn placed_grid(
    old: Seq<Seq<char>>,
    new: Seq<Seq<char>>,
    row: int,
    col: int,
    d: Direction,
    w: Seq<char>,
) -> bool {
    &&& new.len() == old.len()
    &&& forall|r: int| 0 <= r < old.len() ==> #[trigger] new[r].len() == old[r].len()
    &&& forall|i: int|
        0 <= i < w.len() ==> #[trigger] new[path_row(row, d, i)][path_col(col, d, i)] == w[i]
    &&& forall|r: int, c: int|
        in_grid(old, r, c) && !on_path(row, col, d, w.len() as int, r, c) ==> #[trigger] new[r][c]
            == old[r][c]
}

/// Going from `old` to `new` keeps the shape, and no letter is erased or replaced.
pub open spec fn letters_kept(old: Seq<Seq<char>>, new: Seq<Seq<char>>) -> bool {
    &&& new.len() == old.len()
    &&& forall|r: int| 0 <= r < old.len() ==> #[trigger] new[r].len() == old[r].len()
    &&& forall|r: int, c: int|
        in_grid(old, r, c) && old[r][c] != EMPTY ==> #[trigger] new[r][c] == old[r][c]
}

/// The `i`-th letter of `w`, laid from `(row, col)` along `d`, stands in its cell.
pub open spec fn letter_at(
    g: Seq<Seq<char>>,
    row: int,
    col: int,
    d: Direction,
    w: Seq<char>,
    i: int,
) -> bool {
    let r = path_row(row, d, i);
    let c = path_col(col, d, i);
    in_grid(g, r, c) && g[r][c] == w[i]
}

/// The letters of `w` stand in the grid from `(row, col)` along `d`.
pub open spec fn word_on_grid(g: Seq<Seq<char>>, row: int, col: int, d: Direction, w: Seq<char>) -> bool {
    forall|i: int| 0 <= i < w.len() ==> #[trigger] letter_at(g, row, col, d, w, i)
}

/// A word that can be laid in cells: it has letters, and none of them is `EMPTY`.
pub open spec fn is_word(w: Seq<char>) -> bool {
    w.len() > 0 && !w.contains(EMPTY)
}

pub proof fn lemma_count_row_take(row: Seq<char>, c: int)
    requires
        0 <= c < row.len(),
    ensures
        count_row(row.take(c + 1)) == count_row(row.take(c)) + if row[c] == EMPTY {
            1nat
        } else {
            0nat
        },
{
    assert(row.take(c + 1).drop_last() =~= row.take(c));
}

pub proof fn lemma_count_take(g: Seq<Seq<char>>, r: int)
    requires
        0 <= r < g.len(),
    ensures
        count_empty(g.take(r + 1)) == count_empty(g.take(r)) + count_row(g[r]),
{
    assert(g.take(r + 1).drop_last() =~= g.take(r));
}

pub proof fn lemma_count_row_bound(row: Seq<char>)
    ensures
        count_row(row) <= row.len(),
    decreases row.len(),
{
    if row.len() > 0 {
        lemma_count_row_bound(row.drop_last());
    }
}

/// A grid of `rows` by `cols` cells has at most `rows * cols` empty ones.
pub proof fn lemma_count_bound(g: Seq<Seq<char>>, rows: nat, cols: nat)
    requires
        is_rect(g, rows, cols),
    ensures
        count_empty(g) <= rows * cols,
    decreases g.len(),
{
    if g.len() > 0 {
        let rest = g.drop_last();
        lemma_count_bound(rest, (rows - 1) as nat, cols);
        lemma_count_row_bound(g.last());
        assert((rows - 1) * cols + cols == rows * cols) by (nonlinear_arith);
    }
}

pub proof fn lemma_count_row_update(row: Seq<char>, c: int, x: char)
    requires
        0 <= c < row.len(),
    ensures
        count_row(row.update(c, x)) + (if row[c] == EMPTY {
            1nat
        } else {
            0nat
        }) == count_row(row) + if x == EMPTY {
            1nat
        } else {
            0nat
        },
    decreases row.len(),
{
    let u = row.update(c, x);
    if c == row.len() - 1 {
        assert(u.drop_last() =~= row.drop_last());
    } else {
        assert(u.drop_last() =~= row.drop_last().update(c, x));
        lemma_count_row_update(row.drop_last(), c, x);
    }
}

/// Writing `x` into cell `(r, c)` changes the empty count by what the cell was
/// and what it becomes.
pub proof fn lemma_count_update(g: Seq<Seq<char>>, r: int, c: int, x: char)
    requires
        in_grid(g, r, c),
    ensures
        count_empty(g.update(r, g[r].update(c, x))) + (if g[r][c] == EMPTY {
            1nat
        } else {
            0nat
        }) == count_empty(g) + if x == EMPTY {
            1nat
        } else {
            0nat
        },
    decreases g.len(),
{
    let u = g.update(r, g[r].update(c, x));
    if r == g.len() - 1 {
        assert(u.drop_last() =~= g.drop_last());
        lemma_count_row_update(g[r], c, x);
    } else {
        let rest = g.drop_last();
        assert(u.drop_last() =~= rest.update(r, rest[r].update(c, x)));
        lemma_count_update(rest, r, c, x);
    }
}

/// Two steps along a proper direction from one start never meet.
pub proof fn lemma_path_injective(row: int, col: int, d: Direction, i: int, j: int)
    requires
        d.wf(),
        path_row(row, d, i) == path_row(row, d, j),
        path_col(col, d, i) == path_col(col, d, j),
    ensures
        i == j,
{
}

/// A word on the grid stays there as long as no letter is erased or replaced.
pub proof fn lemma_word_stays(
    g1: Seq<Seq<char>>,
    g2: Seq<Seq<char>>,
    row: int,
    col: int,
    d: Direction,
    w: Seq<char>,
)
    requires
        is_word(w),
        word_on_grid(g1, row, col, d, w),
        letters_kept(g1, g2),
    ensures
        word_on_grid(g2, row, col, d, w),
{
    assert forall|i: int| 0 <= i < w.len() implies #[trigger] letter_at(g2, row, col, d, w, i) by {
        assert(letter_at(g1, row, col, d, w, i));
        assert(w[i] != EMPTY) by {
            if w[i] == EMPTY {
                assert(w.contains(EMPTY));
            }
        }
    }
}

/// A grid of `rows` by `cols` empty cells.
pub open spec fn blank(rows: nat, cols: nat) -> Seq<Seq<char>> {
    Seq::new(rows, |r: int| Seq::new(cols, |c: int| EMPTY))
}

pub proof fn lemma_count_blank_row(n: nat)
    ensures
        count_row(Seq::new(n, |c: int| EMPTY)) == n,
    decreases n,
{
    if n > 0 {
        assert(Seq::new(n, |c: int| EMPTY).drop_last() =~= Seq::new((n - 1) as nat, |c: int| EMPTY));
        lemma_count_blank_row((n - 1) as nat);
    }
}

/// Every cell of a blank grid is empty.
pub proof fn lemma_count_blank(rows: nat, cols: nat)
    ensures
        count_empty(blank(rows, cols)) == rows * cols,
    decreases rows,
{
    if rows > 0 {
        assert(blank(rows, cols).drop_last() =~= blank((rows - 1) as nat, cols));
        assert(blank(rows, cols).last() =~= Seq::new(cols, |c: int| EMPTY));
        lemma_count_blank((rows - 1) as nat, cols);
        lemma_count_blank_row(cols);
        lemma_mul_is_distributive_add_other_way(cols as int, rows - 1, 1);
        assert(count_empty(blank(rows, cols)) == count_empty(blank((rows - 1) as nat, cols))
            + count_row(Seq::new(cols, |c: int| EMPTY)));
    } else {
        assert(rows * cols == 0) by (nonlinear_arith)
            requires
                rows == 0,
        ;
    }
}

/// Finds an empty cell in a row that has one.
pub proof fn lemma_find_empty_in_row(row: Seq<char>) -> (c: int)
    requires
        count_row(row) > 0,
    ensures
        0 <= c < row.len(),
        row[c] == EMPTY,
    decreases row.len(),
{
    if row.last() == EMPTY {
        (row.len() - 1) as int
    } else {
        lemma_find_empty_in_row(row.drop_last())
    }
}

/// Finds an empty cell in a grid that has one.
pub proof fn lemma_find_empty(g: Seq<Seq<char>>) -> (rc: (int, int))
    requires
        count_empty(g) > 0,
    ensures
        in_grid(g, rc.0, rc.1),
        g[rc.0][rc.1] == EMPTY,
    decreases g.len(),
{
    if count_row(g.last()) > 0 {
        let c = lemma_find_empty_in_row(g.last());
        ((g.len() - 1) as int, c)
    } else {
        let rc = lemma_find_empty(g.drop_last());
        assert(g.drop_last()[rc.0] == g[rc.0]);
        rc
    }
}

/// Position of cell `(r, c)` when the grid is read row after row.
pub open spec fn linear(r: int, c: int, cols: int) -> int {
    r * cols + c
}

/// Distance from position `k` forward to position `t` on a cycle of `n` positions.
pub open spec fn cyclic_distance(k: int, t: int, n: int) -> int {
    if t >= k {
        t - k
    } else {
        t + n - k
    }
}

pub proof fn lemma_linear_bound(r: int, c: int, rows: int, cols: int)
    requires
        0 <= r < rows,
        0 <= c < cols,
    ensures
        0 <= linear(r, c, cols) < rows * cols,
{
    assert(0 <= r * cols + c < rows * cols) by (nonlinear_arith)
        requires
            0 <= r < rows,
            0 <= c < cols,
    ;
}

pub proof fn lemma_linear_injective(r1: int, c1: int, r2: int, c2: int, cols: int)
    requires
        0 <= r1,
        0 <= r2,
        0 <= c1 < cols,
        0 <= c2 < cols,
        linear(r1, c1, cols) == linear(r2, c2, cols),
    ensures
        r1 == r2,
        c1 == c2,
{
    if r1 < r2 {
        assert(r1 * cols + cols <= r2 * cols) by (nonlinear_arith)
            requires
                r1 < r2,
                0 <= cols,
        ;
    } else if r2 < r1 {
        assert(r2 * cols + cols <= r1 * cols) by (nonlinear_arith)
            requires
                r2 < r1,
                0 <= cols,
        ;
    }
}

pub proof fn lemma_linear_next_row(r: int, cols: int)
    ensures
        linear(r + 1, 0, cols) == linear(r, cols - 1, cols) + 1,
{
    assert((r + 1) * cols == r * cols + cols) by (nonlinear_arith);
}

/// The path of `n` steps from `(row, col)` along `d` stays inside the grid.
pub open spec fn path_in_grid(g: Seq<Seq<char>>, row: int, col: int, d: Direction, n: int) -> bool {
    forall|i: int|
        0 <= i < n ==> #[trigger] in_grid(g, path_row(row, d, i), path_col(col, d, i))
}

/// Whether a grid of `rows` by `cols` cells can be counted in a `usize`.
pub fn cells_fit(rows: usize, cols: usize) -> (r: bool)
    requires
        cols > 0,
    ensures
        r == (rows * cols <= usize::MAX),
{
    let limit = usize::MAX / cols;
    proof {
        lemma_fundamental_div_mod(usize::MAX as int, cols as int);
        lemma_mod_pos_bound(usize::MAX as int, cols as int);
        if rows <= limit {
            lemma_mul_inequality(rows as int, limit as int, cols as int);
        } else {
            lemma_mul_inequality(limit + 1, rows as int, cols as int);
            lemma_mul_is_distributive_add_other_way(cols as int, limit as int, 1);
        }
        assert(cols * limit == limit * cols) by (nonlinear_arith);
    }
    rows <= limit
}

/// Whether `word` has letters and none of them is `EMPTY`.
pub fn is_placeable(word: &str) -> (r: bool)
    ensures
        r == is_word(word@),
{
    let n = word.unicode_len();
    if n == 0 {
        return false;
    }
    let mut i: usize = 0;
    while i < n
        invariant
            n == word@.len(),
            i <= n,
            forall|j: int| 0 <= j < i ==> word@[j] != EMPTY,
        decreases n - i,
    {
        if word.get_char(i) == EMPTY {
            assert(word@.contains(EMPTY));
            return false;
        }
        i = i + 1;
    }
    true
}

/// Position reached after `i` steps of `delta` from `pos`, if it stays in `0..limit`.
pub fn step(pos: usize, delta: isize, i: usize, limit: usize) -> (r: Option<usize>)
    requires
        -1 <= delta <= 1,
    ensures
        match r {
            Some(p) => p == pos + offset(delta, i as int) && p < limit,
            None => !(0 <= pos + offset(delta, i as int) < limit),
        },
{
    if delta > 0 {
        if i < limit && pos < limit - i {
            Some(pos + i)
        } else {
            None
        }
    } else if delta < 0 {
        if i <= pos && pos - i < limit {
            Some(pos - i)
        } else {
            None
        }
    } else if pos < limit {
        Some(pos)
    } else {
        None
    }
}

} // verus!
