//! The puzzle board: the grid, the hidden solution, and the words placed so far.

use crate::direction::{
    all_directions, direction_table, lemma_permuted_table, lemma_table_wf, Direction,
};
use crate::grid::{
    blank, can_place, cells_fit, count_empty, count_row, cyclic_distance, in_grid, is_placeable,
    is_rect, is_word, lemma_count_bound, lemma_count_row_take, lemma_count_take,
    lemma_count_update, lemma_find_empty, lemma_linear_bound, lemma_linear_injective,
    lemma_linear_next_row, lemma_path_injective, letters_kept, linear, newly_filled, on_path,
    path_col, path_in_grid, path_row, placed_grid, step, step_fits, word_fits, EMPTY,
};
use crate::layout::{chunk, flatten, grid_to_string, grid_view, string_to_grid};
use crate::random::{random_below, shuffle};
use crate::text::{letters_of, solution_of, upper_of};
use vstd::arithmetic::div_mod::lemma_div_by_multiple;
use vstd::arithmetic::mul::{lemma_mul_inequality, lemma_mul_is_distributive_add_other_way};
use vstd::prelude::*;

verus! {

/// One successful placement: the word, its first cell, the direction it runs in,
/// and how many words the board held once it was placed.
pub struct Placement {
    pub direction: &'static str,
    pub row: usize,
    pub col: usize,
    pub word: String,
    pub step: usize,
}

/// A word-search board: a `rows` by `cols` grid, the message it hides, that
/// message's letters (the solution), and the words laid on the grid so far.
pub struct Board {
    rows: usize,
    cols: usize,
    message: String,
    solution: String,
    grid: Vec<Vec<char>>,
    words: Vec<String>,
}

impl Board {
    /// The grid, row by row.
    pub closed spec fn cells(&self) -> Seq<Seq<char>> {
        Seq::new(self.grid@.len(), |r: int| self.grid@[r]@)
    }

    /// Number of rows.
    pub closed spec fn num_rows(&self) -> nat {
        self.rows as nat
    }

    /// Number of columns.
    pub closed spec fn num_cols(&self) -> nat {
        self.cols as nat
    }

    /// The text the board was made for.
    pub closed spec fn message_view(&self) -> Seq<char> {
        self.message@
    }

    /// The letters that the empty cells are kept for.
    pub closed spec fn solution_view(&self) -> Seq<char> {
        self.solution@
    }

    /// The words placed so far, in the order they were placed.
    pub closed spec fn placed(&self) -> Seq<Seq<char>> {
        self.words@.map_values(|w: String| w@)
    }

    /// The grid has the board's shape, its cells can be counted in a `usize`,
    /// and no word was placed twice.
    pub closed spec fn wf(&self) -> bool {
        &&& self.rows > 0
        &&& self.cols > 0
        &&& self.rows * self.cols <= usize::MAX
        &&& is_rect(self.cells(), self.rows as nat, self.cols as nat)
        &&& self.placed().no_duplicates()
    }

    /// Exactly as many cells are empty as the solution has letters.
    pub open spec fn is_complete(&self) -> bool {
        count_empty(self.cells()) == self.solution_view().len()
    }

    /// `w` can go from `(row, col)` along `d` without leaving the grid, without
    /// contradicting a letter, and while leaving room for the solution.
    pub open spec fn fits_at(&self, row: int, col: int, d: Direction, w: Seq<char>) -> bool {
        can_place(self.cells(), self.solution_view().len(), row, col, d, w)
    }

    /// A fresh board of `rows` by `cols` empty cells, whose solution is the
    /// upper-cased letters of `message`.
    pub fn new(rows: usize, cols: usize, message: String) -> (b: Board)
        requires
            rows > 0,
            cols > 0,
            rows * cols <= usize::MAX,
        ensures
            b.wf(),
            b.num_rows() == rows,
            b.num_cols() == cols,
            b.message_view() == message@,
            b.solution_view() == letters_of(upper_of(message@)),
            message@.len() == 0 ==> b.solution_view().len() == 0,
            b.cells() == blank(rows as nat, cols as nat),
            b.placed() == Seq::<Seq<char>>::empty(),
    {
        let solution = solution_of(message.as_str());
        let mut grid: Vec<Vec<char>> = Vec::new();
        let mut r: usize = 0;
        while r < rows
            invariant
                r <= rows,
                grid@.len() == r,
                forall|i: int| 0 <= i < r ==> #[trigger] grid@[i]@ == Seq::new(cols as nat, |c: int| EMPTY),
            decreases rows - r,
        {
            let mut line: Vec<char> = Vec::new();
            let mut c: usize = 0;
            while c < cols
                invariant
                    c <= cols,
                    line@ == Seq::new(c as nat, |k: int| EMPTY),
                decreases cols - c,
            {
                line.push(EMPTY);
                c = c + 1;
                assert(line@ =~= Seq::new(c as nat, |k: int| EMPTY));
            }
            grid.push(line);
            r = r + 1;
        }
        let b = Board { rows, cols, message, solution, grid, words: Vec::new() };
        assert(b.cells() =~= Seq::new(rows as nat, |r: int| Seq::new(cols as nat, |c: int| EMPTY)));
        assert(b.placed() =~= Seq::<Seq<char>>::empty());
        b
    }

    /// Number of cells that hold no letter yet.
    pub fn get_empty_cells(&self) -> (n: usize)
        requires
            self.wf(),
        ensures
            n == count_empty(self.cells()),
    {
        let ghost g = self.cells();
        let mut items: usize = 0;
        let mut r: usize = 0;
        while r < self.rows
            invariant
                self.wf(),
                g == self.cells(),
                r <= self.rows,
                items == count_empty(g.take(r as int)),
                items <= r * self.cols,
            decreases self.rows - r,
        {
            let mut c: usize = 0;
            proof {
                assert(g[r as int].take(0) =~= Seq::<char>::empty());
            }
            while c < self.cols
                invariant
                    self.wf(),
                    g == self.cells(),
                    r < self.rows,
                    c <= self.cols,
                    items == count_empty(g.take(r as int)) + count_row(g[r as int].take(c as int)),
                    items <= r * self.cols + c,
                decreases self.cols - c,
            {
                proof {
                    lemma_count_row_take(g[r as int], c as int);
                    assert(r * self.cols + c < self.rows * self.cols) by (nonlinear_arith)
                        requires
                            r < self.rows,
                            c < self.cols,
                    ;
                }
                if self.grid[r][c] == EMPTY {
                    items = items + 1;
                }
                c = c + 1;
            }
            proof {
                assert(g[r as int].take(self.cols as int) =~= g[r as int]);
                lemma_count_take(g, r as int);
                assert(r * self.cols + self.cols == (r + 1) * self.cols) by (nonlinear_arith);
            }
            r = r + 1;
        }
        proof {
            assert(g.take(self.rows as int) =~= g);
        }
        items
    }

    /// Whether generation is done: exactly as many cells are empty as the
    /// solution has letters. With an empty solution, that means a full grid.
    pub fn is_filled(&self) -> (r: bool)
        requires
            self.wf(),
        ensures
            r == self.is_complete(),
    {
        self.get_empty_cells() == self.solution.as_str().unicode_len()
    }

    /// Whether `word` is among the placed words.
    pub fn contains_word(&self, word: &String) -> (r: bool)
        ensures
            r == self.placed().contains(word@),
    {
        let mut i: usize = 0;
        while i < self.words.len()
            invariant
                i <= self.words@.len(),
                forall|j: int| 0 <= j < i ==> self.placed()[j] != word@,
            decreases self.words@.len() - i,
        {
            if self.words[i] == *word {
                assert(self.placed()[i as int] == word@);
                return true;
            }
            i = i + 1;
        }
        false
    }

    /// Whether `word`, laid from `(row, col)` along `direction`, stays inside the
    /// grid and agrees with every letter already in its way; if so, how many of
    /// its cells are still empty.
    fn path_fill(&self, row: usize, col: usize, direction: Direction, word: &String) -> (r: Option<
        usize,
    >)
        requires
            self.wf(),
            direction.wf(),
        ensures
            r is Some <==> word_fits(self.cells(), row as int, col as int, direction, word@),
            r matches Some(n) ==> n == newly_filled(
                self.cells(),
                row as int,
                col as int,
                direction,
                word@.len() as int,
            ),
    {
        let ghost g = self.cells();
        let ghost w = word@;
        let n = word.as_str().unicode_len();
        let mut non_filled_cells: usize = 0;
        let mut i: usize = 0;
        while i < n
            invariant
                self.wf(),
                g == self.cells(),
                w == word@,
                direction.wf(),
                n == w.len(),
                i <= n,
                non_filled_cells <= i,
                non_filled_cells == newly_filled(g, row as int, col as int, direction, i as int),
                forall|j: int| 0 <= j < i ==> #[trigger] step_fits(g, row as int, col as int, direction, w, j),
            decreases n - i,
        {
            let curr_char = word.as_str().get_char(i);
            let r = step(row, direction.y_dir, i, self.rows);
            let c = step(col, direction.x_dir, i, self.cols);
            match (r, c) {
                (Some(rr), Some(cc)) => {
                    assert(g[rr as int].len() == self.cols);
                    let cell_char = self.grid[rr][cc];
                    if cell_char != EMPTY && cell_char != curr_char {
                        assert(!step_fits(g, row as int, col as int, direction, w, i as int));
                        return None;
                    }
                    if cell_char == EMPTY {
                        non_filled_cells = non_filled_cells + 1;
                    }
                },
                _ => {
                    assert(!step_fits(g, row as int, col as int, direction, w, i as int));
                    return None;
                },
            }
            i = i + 1;
        }
        Some(non_filled_cells)
    }

    /// Whether `word`, laid from `(row, col)` along `direction`, stays inside the
    /// grid, agrees with every letter already in its way, and still leaves as many
    /// empty cells as the solution needs.
    pub fn word_fits_board(&self, row: usize, col: usize, direction: Direction, word: String) -> (r:
        bool)
        requires
            self.wf(),
            direction.wf(),
        ensures
            r == self.fits_at(row as int, col as int, direction, word@),
    {
        match self.path_fill(row, col, direction, &word) {
            None => false,
            Some(non_filled_cells) => {
                let empty = self.get_empty_cells();
                let solution_len = self.solution.as_str().unicode_len();
                !(non_filled_cells > empty || solution_len > empty - non_filled_cells)
            },
        }
    }

    /// Places `word` from `(row, col)` along `direction` when that placement is
    /// accepted: the word has letters and no empty marker, was not placed before,
    /// and fits there while leaving room for the solution. Then its letters are
    /// written, it is recorded, and `true` is returned; otherwise nothing changes.
    pub fn place_word_on_board(&mut self, row: usize, col: usize, direction: Direction, word: String) -> (placed: bool)
        requires
            old(self).wf(),
            direction.wf(),
        ensures
            final(self).wf(),
            final(self).same_setup(old(self)),
            placed == (is_word(word@) && !old(self).placed().contains(word@) && old(self).fits_at(
                row as int,
                col as int,
                direction,
                word@,
            )),
            !placed ==> *final(self) == *old(self),
            placed ==> {
                &&& placed_grid(
                    old(self).cells(),
                    final(self).cells(),
                    row as int,
                    col as int,
                    direction,
                    word@,
                )
                &&& letters_kept(old(self).cells(), final(self).cells())
                &&& count_empty(final(self).cells()) + newly_filled(
                    old(self).cells(),
                    row as int,
                    col as int,
                    direction,
                    word@.len() as int,
                ) == count_empty(old(self).cells())
                &&& count_empty(final(self).cells()) >= final(self).solution_view().len()
                &&& final(self).placed() == old(self).placed().push(word@)
            },
    {
        if !is_placeable(word.as_str()) || self.contains_word(&word) || !self.word_fits_board(
            row,
            col,
            direction,
            word.clone(),
        ) {
            return false;
        }
        self.write_word(row, col, direction, word);
        true
    }

    /// Writes `word` from `(row, col)` along `direction` and records it among the
    /// placed words (once).
    fn write_word(&mut self, row: usize, col: usize, direction: Direction, word: String)
        requires
            old(self).wf(),
            direction.wf(),
            is_word(word@),
            word_fits(old(self).cells(), row as int, col as int, direction, word@),
        ensures
            final(self).wf(),
            final(self).num_rows() == old(self).num_rows(),
            final(self).num_cols() == old(self).num_cols(),
            final(self).message_view() == old(self).message_view(),
            final(self).solution_view() == old(self).solution_view(),
            placed_grid(old(self).cells(), final(self).cells(), row as int, col as int, direction, word@),
            letters_kept(old(self).cells(), final(self).cells()),
            count_empty(final(self).cells()) + newly_filled(
                old(self).cells(),
                row as int,
                col as int,
                direction,
                word@.len() as int,
            ) == count_empty(old(self).cells()),
            final(self).placed() == if old(self).placed().contains(word@) {
                old(self).placed()
            } else {
                old(self).placed().push(word@)
            },
    {
        let ghost g0 = self.cells();
        let ghost w = word@;
        let ghost row_i = row as int;
        let ghost col_i = col as int;
        let n = word.as_str().unicode_len();
        let mut i: usize = 0;
        while i < n
            invariant
                self.wf(),
                self.rows == old(self).rows,
                self.cols == old(self).cols,
                self.message == old(self).message,
                self.solution == old(self).solution,
                self.words == old(self).words,
                g0 == old(self).cells(),
                is_rect(g0, self.rows as nat, self.cols as nat),
                row_i == row,
                col_i == col,
                w == word@,
                is_word(w),
                direction.wf(),
                word_fits(g0, row_i, col_i, direction, w),
                n == w.len(),
                i <= n,
                forall|j: int|
                    0 <= j < i ==> #[trigger] self.cells()[path_row(row_i, direction, j)][path_col(
                        col_i,
                        direction,
                        j,
                    )] == w[j],
                forall|rr: int, cc: int|
                    in_grid(g0, rr, cc) && !on_path(row_i, col_i, direction, i as int, rr, cc)
                        ==> #[trigger] self.cells()[rr][cc] == g0[rr][cc],
                count_empty(self.cells()) + newly_filled(g0, row_i, col_i, direction, i as int)
                    == count_empty(g0),
            decreases n - i,
        {
            let curr_char = word.as_str().get_char(i);
            assert(step_fits(g0, row_i, col_i, direction, w, i as int));
            let ghost pr = path_row(row_i, direction, i as int);
            let ghost pc = path_col(col_i, direction, i as int);
            assert(g0[pr].len() == self.cols);
            let r = step(row, direction.y_dir, i, self.rows);
            let c = step(col, direction.x_dir, i, self.cols);
            let rr = r.unwrap();
            let cc = c.unwrap();
            proof {
                assert(!on_path(row_i, col_i, direction, i as int, pr, pc)) by {
                    if on_path(row_i, col_i, direction, i as int, pr, pc) {
                        let j = choose|j: int|
                            0 <= j < i && path_row(row_i, direction, j) == pr && path_col(
                                col_i,
                                direction,
                                j,
                            ) == pc;
                        lemma_path_injective(row_i, col_i, direction, i as int, j);
                    }
                }
                assert(self.cells()[pr][pc] == g0[pr][pc]);
                assert(curr_char != EMPTY) by {
                    if curr_char == EMPTY {
                        assert(w.contains(EMPTY));
                    }
                }
                lemma_count_update(self.cells(), pr, pc, curr_char);
            }
            let ghost before = self.cells();
            assert(before[pr].len() == self.cols);
            self.grid[rr][cc] = curr_char;
            proof {
                assert(self.cells() =~= before.update(pr, before[pr].update(pc, curr_char)));
                assert forall|j: int| 0 <= j < i + 1 implies #[trigger] self.cells()[path_row(
                    row_i,
                    direction,
                    j,
                )][path_col(col_i, direction, j)] == w[j] by {
                    let a = path_row(row_i, direction, j);
                    let b = path_col(col_i, direction, j);
                    if j < i {
                        assert(before[a][b] == w[j]);
                        assert(step_fits(g0, row_i, col_i, direction, w, j));
                        if a == pr && b == pc {
                            lemma_path_injective(row_i, col_i, direction, i as int, j);
                        }
                        assert(self.cells()[a][b] == before[a][b]);
                    } else {
                        assert(self.cells()[pr][pc] == curr_char);
                    }
                }
                assert forall|a: int, b: int|
                    in_grid(g0, a, b) && !on_path(row_i, col_i, direction, i + 1, a, b)
                        implies #[trigger] self.cells()[a][b] == g0[a][b] by {
                    if !(a == pr && b == pc) {
                        if on_path(row_i, col_i, direction, i as int, a, b) {
                            let j = choose|j: int|
                                0 <= j < i && path_row(row_i, direction, j) == a && path_col(
                                    col_i,
                                    direction,
                                    j,
                                ) == b;
                            assert(on_path(row_i, col_i, direction, i + 1, a, b));
                        }
                    } else {
                        assert(on_path(row_i, col_i, direction, i + 1, a, b));
                    }
                }
            }
            i = i + 1;
        }
        proof {
            let g1 = self.cells();
            assert forall|a: int, b: int| in_grid(g0, a, b) && g0[a][b] != EMPTY implies #[trigger] g1[a][b]
                == g0[a][b] by {
                if on_path(row_i, col_i, direction, n as int, a, b) {
                    let j = choose|j: int|
                        0 <= j < n && path_row(row_i, direction, j) == a && path_col(
                            col_i,
                            direction,
                            j,
                        ) == b;
                    assert(step_fits(g0, row_i, col_i, direction, w, j));
                }
            }
        }
        if !self.contains_word(&word) {
            self.words.push(word);
            proof {
                assert(self.placed() =~= old(self).placed().push(w));
                assert(self.placed().no_duplicates()) by {
                    let p = self.placed();
                    assert forall|x: int, y: int| 0 <= x < p.len() && 0 <= y < p.len() && x != y
                        implies p[x] != p[y] by {
                        if y == p.len() - 1 {
                            assert(old(self).placed()[x] == p[x]);
                        } else if x == p.len() - 1 {
                            assert(old(self).placed()[y] == p[y]);
                        }
                    }
                }
            }
        }
    }
    /// The first empty cell met when scanning from `(row, col)`: forward column by
    /// column, then row by row, wrapping from the last cell to the first.
    pub fn first_empty_from(&self, row: usize, col: usize) -> (rc: (usize, usize))
        requires
            self.wf(),
            row < self.num_rows(),
            col < self.num_cols(),
            count_empty(self.cells()) > 0,
        ensures
            scan_finds(*self, row as int, col as int, rc.0 as int, rc.1 as int),
    {
        let ghost g = self.cells();
        proof {
            let found = lemma_find_empty(g);
        }
        let ghost target: (int, int) = choose|p: (int, int)|
            in_grid(g, p.0, p.1) && g[p.0][p.1] == EMPTY;
        let ghost cols = self.cols as int;
        let ghost n = self.rows * self.cols;
        let ghost k0 = linear(row as int, col as int, cols);
        let ghost t = linear(target.0, target.1, cols);
        proof {
            assert(g[target.0].len() == self.cols);
            lemma_linear_bound(target.0, target.1, self.rows as int, cols);
            lemma_linear_bound(row as int, col as int, self.rows as int, cols);
        }
        let mut r = row;
        let mut c = col;
        loop
            invariant
                self.wf(),
                g == self.cells(),
                cols == self.cols,
                n == self.rows * self.cols,
                in_grid(g, target.0, target.1),
                g[target.0][target.1] == EMPTY,
                t == linear(target.0, target.1, cols),
                0 <= t < n,
                0 <= k0 < n,
                k0 == linear(row as int, col as int, cols),
                r < self.rows,
                c < self.cols,
                forall|r2: int, c2: int|
                    0 <= r2 < self.rows && 0 <= c2 < self.cols && cyclic_distance(
                        k0,
                        linear(r2, c2, cols),
                        n,
                    ) < cyclic_distance(k0, linear(r as int, c as int, cols), n) ==> #[trigger] g[r2][c2]
                        != EMPTY,
            decreases cyclic_distance(k0, t, n) - cyclic_distance(
                k0,
                linear(r as int, c as int, cols),
                n,
            ),
        {
            assert(g[r as int].len() == self.cols);
            if self.grid[r][c] == EMPTY {
                return (r, c);
            }
            let ghost k = linear(r as int, c as int, cols);
            let ghost d = cyclic_distance(k0, k, n);
            proof {
                lemma_linear_bound(r as int, c as int, self.rows as int, cols);
                if k == t {
                    lemma_linear_injective(r as int, c as int, target.0, target.1, cols);
                }
                assert(d < cyclic_distance(k0, t, n)) by {
                    if cyclic_distance(k0, t, n) <= d {
                        if cyclic_distance(k0, t, n) == d {
                            lemma_linear_injective(r as int, c as int, target.0, target.1, cols);
                        }
                    }
                }
            }
            let ghost (old_r, old_c) = (r as int, c as int);
            c = c + 1;
            if c == self.cols {
                c = 0;
                proof {
                    lemma_linear_next_row(old_r, cols);
                }
                if r + 1 < self.rows {
                    r = r + 1;
                } else {
                    r = 0;
                    assert(0 * cols == 0) by (nonlinear_arith);
                }
            }
            proof {
                let k2 = linear(r as int, c as int, cols);
                assert(cyclic_distance(k0, k2, n) == d + 1);
                assert forall|r2: int, c2: int|
                    0 <= r2 < self.rows && 0 <= c2 < self.cols && cyclic_distance(
                        k0,
                        linear(r2, c2, cols),
                        n,
                    ) < cyclic_distance(k0, k2, n) implies #[trigger] g[r2][c2] != EMPTY by {
                    lemma_linear_bound(r2, c2, self.rows as int, cols);
                    if cyclic_distance(k0, linear(r2, c2, cols), n) == d {
                        lemma_linear_injective(r2, c2, old_r, old_c, cols);
                    }
                }
            }
        }
    }

    /// A random empty cell: a start drawn at random, then the first empty cell
    /// from there (see `first_empty_from`).
    pub fn get_random_cell(&self, rng: &mut rand::rngs::StdRng) -> (rc: (usize, usize))
        requires
            self.wf(),
            count_empty(self.cells()) > 0,
        ensures
            exists|row: int, col: int| scan_finds(*self, row, col, rc.0 as int, rc.1 as int),
    {
        let row = random_below(rng, self.rows);
        let col = random_below(rng, self.cols);
        self.first_empty_from(row, col)
    }

    /// The first direction of `order` along which `word` fits from `(row, col)`
    /// (see `fits_at`), or `None` when it fits along none of them.
    pub fn first_fitting(&self, row: usize, col: usize, word: &String, order: &Vec<Direction>) -> (r:
        Option<Direction>)
        requires
            self.wf(),
            forall|j: int| 0 <= j < order@.len() ==> (#[trigger] order@[j]).wf(),
        ensures
            r matches Some(d) ==> first_fit_in(*self, row as int, col as int, word@, order@, d),
            r is None <==> forall|j: int|
                0 <= j < order@.len() ==> !self.fits_at(
                    row as int,
                    col as int,
                    #[trigger] order@[j],
                    word@,
                ),
    {
        let mut k: usize = 0;
        while k < order.len()
            invariant
                self.wf(),
                k <= order@.len(),
                forall|j: int| 0 <= j < order@.len() ==> (#[trigger] order@[j]).wf(),
                forall|j: int|
                    0 <= j < k ==> !self.fits_at(row as int, col as int, #[trigger] order@[j], word@),
            decreases order@.len() - k,
        {
            let direction = order[k];
            assert(order@[k as int].wf());
            if self.word_fits_board(row, col, direction, word.clone()) {
                assert(first_fit_in(*self, row as int, col as int, word@, order@, direction));
                return Some(direction);
            }
            k = k + 1;
        }
        None
    }

    /// The directions, in random order, tried one by one from `(row, col)`: the
    /// first along which `word` fits is returned. A word already placed fits nowhere.
    pub fn word_fits_board_direction(
        &self,
        row: usize,
        col: usize,
        word: String,
        rng: &mut rand::rngs::StdRng,
    ) -> (r: Option<Direction>)
        requires
            self.wf(),
        ensures
            self.placed().contains(word@) ==> r is None,
            r matches Some(d) ==> direction_table().contains(d) && self.fits_at(
                row as int,
                col as int,
                d,
                word@,
            ),
            r is None && !self.placed().contains(word@) ==> forall|d: Direction|
                #[trigger] direction_table().contains(d) ==> !self.fits_at(
                    row as int,
                    col as int,
                    d,
                    word@,
                ),
    {
        if self.contains_word(&word) {
            return None;
        }
        let order = shuffled_directions(rng);
        let r = self.first_fitting(row, col, &word, &order);
        proof {
            if r is None {
                assert forall|d: Direction| #[trigger] direction_table().contains(d) implies !self.fits_at(
                    row as int,
                    col as int,
                    d,
                    word@,
                ) by {
                    assert(order@.contains(d));
                    let j = choose|j: int| 0 <= j < order@.len() && order@[j] == d;
                }
            }
            if let Some(d) = r {
                let i = choose|i: int|
                    0 <= i < order@.len() && order@[i] == d && self.fits_at(
                        row as int,
                        col as int,
                        d,
                        word@,
                    ) && forall|j: int|
                        0 <= j < i ==> !self.fits_at(
                            row as int,
                            col as int,
                            #[trigger] order@[j],
                            word@,
                        );
                assert(order@.contains(d));
            }
        }
        r
    }

    /// The first direction of `order` along which a path of `depth` cells from
    /// `(row, col)` stays inside the grid; `None` when there is none or `depth` is 0.
    pub fn first_inside(&self, row: usize, col: usize, depth: usize, order: &Vec<Direction>) -> (r:
        Option<Direction>)
        requires
            self.wf(),
            forall|j: int| 0 <= j < order@.len() ==> (#[trigger] order@[j]).wf(),
        ensures
            r matches Some(d) ==> depth > 0 && first_inside_in(
                self.cells(),
                row as int,
                col as int,
                depth as int,
                order@,
                d,
            ),
            r is None <==> (depth == 0 || forall|j: int|
                0 <= j < order@.len() ==> !path_in_grid(
                    self.cells(),
                    row as int,
                    col as int,
                    #[trigger] order@[j],
                    depth as int,
                )),
    {
        let ghost g = self.cells();
        if depth == 0 {
            return None;
        }
        let mut k: usize = 0;
        while k < order.len()
            invariant
                self.wf(),
                g == self.cells(),
                depth > 0,
                k <= order@.len(),
                forall|j: int| 0 <= j < order@.len() ==> (#[trigger] order@[j]).wf(),
                forall|j: int|
                    0 <= j < k ==> !path_in_grid(
                        g,
                        row as int,
                        col as int,
                        #[trigger] order@[j],
                        depth as int,
                    ),
            decreases order@.len() - k,
        {
            let direction = order[k];
            assert(order@[k as int].wf());
            let mut curr_depth: usize = 0;
            let mut inside = true;
            while inside && curr_depth < depth
                invariant
                    self.wf(),
                    g == self.cells(),
                    direction.wf(),
                    curr_depth <= depth,
                    inside ==> forall|i: int|
                        0 <= i < curr_depth ==> #[trigger] in_grid(
                            g,
                            path_row(row as int, direction, i),
                            path_col(col as int, direction, i),
                        ),
                    !inside ==> !path_in_grid(g, row as int, col as int, direction, depth as int),
                decreases depth - curr_depth + if inside {
                    1int
                } else {
                    0int
                },
            {
                let r = step(row, direction.y_dir, curr_depth, self.rows);
                let c = step(col, direction.x_dir, curr_depth, self.cols);
                match (r, c) {
                    (Some(rr), Some(cc)) => {
                        assert(g[rr as int].len() == self.cols);
                        curr_depth = curr_depth + 1;
                    },
                    _ => {
                        assert(!in_grid(
                            g,
                            path_row(row as int, direction, curr_depth as int),
                            path_col(col as int, direction, curr_depth as int),
                        ));
                        inside = false;
                    },
                }
            }
            if inside {
                assert(first_inside_in(g, row as int, col as int, depth as int, order@, direction));
                return Some(direction);
            }
            k = k + 1;
        }
        None
    }

    /// The directions, in random order, tried one by one from `(row, col)`: the
    /// first along which a path of `depth` cells stays inside the grid is returned.
    pub fn get_random_direction_from_cell(
        &self,
        row: usize,
        col: usize,
        depth: usize,
        rng: &mut rand::rngs::StdRng,
    ) -> (r: Option<Direction>)
        requires
            self.wf(),
        ensures
            r matches Some(d) ==> depth > 0 && direction_table().contains(d) && path_in_grid(
                self.cells(),
                row as int,
                col as int,
                d,
                depth as int,
            ),
            r is None ==> depth == 0 || forall|d: Direction| #[trigger]
                direction_table().contains(d) ==> !path_in_grid(
                    self.cells(),
                    row as int,
                    col as int,
                    d,
                    depth as int,
                ),
    {
        let order = shuffled_directions(rng);
        let r = self.first_inside(row, col, depth, &order);
        proof {
            if r is None && depth > 0 {
                assert forall|d: Direction| #[trigger] direction_table().contains(d) implies !path_in_grid(
                    self.cells(),
                    row as int,
                    col as int,
                    d,
                    depth as int,
                ) by {
                    assert(order@.contains(d));
                    let j = choose|j: int| 0 <= j < order@.len() && order@[j] == d;
                }
            }
            if let Some(d) = r {
                let i = choose|i: int|
                    0 <= i < order@.len() && order@[i] == d && path_in_grid(
                        self.cells(),
                        row as int,
                        col as int,
                        d,
                        depth as int,
                    ) && forall|j: int|
                        0 <= j < i ==> !path_in_grid(
                            self.cells(),
                            row as int,
                            col as int,
                            #[trigger] order@[j],
                            depth as int,
                        );
                assert(order@.contains(d));
            }
        }
        r
    }
}

/// `d` is the first direction of `order` along which `w` fits from `(row, col)`.
pub open spec fn first_fit_in(
    b: Board,
    row: int,
    col: int,
    w: Seq<char>,
    order: Seq<Direction>,
    d: Direction,
) -> bool {
    exists|i: int|
        0 <= i < order.len() && #[trigger] order[i] == d && b.fits_at(row, col, d, w) && forall|
            j: int,
        | 0 <= j < i ==> !b.fits_at(row, col, #[trigger] order[j], w)
}

/// `d` is the first direction of `order` along which a path of `depth` cells
/// from `(row, col)` stays inside the grid.
pub open spec fn first_inside_in(
    g: Seq<Seq<char>>,
    row: int,
    col: int,
    depth: int,
    order: Seq<Direction>,
    d: Direction,
) -> bool {
    exists|i: int|
        0 <= i < order.len() && #[trigger] order[i] == d && path_in_grid(g, row, col, d, depth)
            && forall|j: int| 0 <= j < i ==> !path_in_grid(g, row, col, #[trigger] order[j], depth)
}

/// The table's directions in a random order; each is well formed.
fn shuffled_directions(rng: &mut rand::rngs::StdRng) -> (order: Vec<Direction>)
    ensures
        order@.len() == direction_table().len(),
        forall|d: Direction| #[trigger] order@.contains(d) <==> direction_table().contains(d),
        forall|j: int| 0 <= j < order@.len() ==> (#[trigger] order@[j]).wf(),
        forall|j: int| 0 <= j < order@.len() ==> direction_table().contains(#[trigger] order@[j]),
{
    let mut order = all_directions();
    shuffle(&mut order, rng);
    proof {
        lemma_table_wf();
        lemma_permuted_table(order@);
        assert forall|j: int| 0 <= j < order@.len() implies (#[trigger] order@[j]).wf()
            && direction_table().contains(order@[j]) by {
            assert(order@.contains(order@[j]));
        }
    }
    order
}

/// `(r, c)` is the first empty cell met when scanning from `(row, col)`: it lies
/// on the board and is empty, and every cell that the scan passes before it,
/// in row-major order with wrap-around, holds a letter.
pub open spec fn scan_finds(b: Board, row: int, col: int, r: int, c: int) -> bool {
    let cols = b.num_cols() as int;
    let n = (b.num_rows() * b.num_cols()) as int;
    let k0 = linear(row, col, cols);
    &&& 0 <= r < b.num_rows()
    &&& 0 <= c < b.num_cols()
    &&& b.cells()[r][c] == EMPTY
    &&& forall|r2: int, c2: int|
        0 <= r2 < b.num_rows() && 0 <= c2 < b.num_cols() && cyclic_distance(
            k0,
            linear(r2, c2, cols),
            n,
        ) < cyclic_distance(k0, linear(r, c, cols), n) ==> #[trigger] b.cells()[r2][c2] != EMPTY
}

/// `after` is `before` with `p.word` laid from `(p.row, p.col)` along `d`: the
/// direction is one of the table's and carries the placement's label, the start
/// cell was empty, the word fitted there, and exactly its cells were written.
pub open spec fn placement_step(before: Board, after: Board, p: Placement, d: Direction) -> bool {
    &&& direction_table().contains(d)
    &&& d.dbg_name == p.direction
    &&& p.row < before.num_rows()
    &&& p.col < before.num_cols()
    &&& before.cells()[p.row as int][p.col as int] == EMPTY
    &&& before.fits_at(p.row as int, p.col as int, d, p.word@)
    &&& placed_grid(before.cells(), after.cells(), p.row as int, p.col as int, d, p.word@)
}

impl Board {
    /// Same dimensions, message and solution.
    pub open spec fn same_setup(&self, other: &Board) -> bool {
        &&& self.num_rows() == other.num_rows()
        &&& self.num_cols() == other.num_cols()
        &&& self.message_view() == other.message_view()
        &&& self.solution_view() == other.solution_view()
    }

    /// Puts `word` on the board from drawn values: it is refused if it has no
    /// letters, holds the empty marker, was placed already, or no cell is empty;
    /// otherwise the start is the first empty cell from `(start_row, start_col)`
    /// (see `first_empty_from`) and the direction the first of `order` that fits
    /// there (see `first_fitting`). Nothing changes when none fits.
    pub fn place_with(
        &mut self,
        word: String,
        start_row: usize,
        start_col: usize,
        order: &Vec<Direction>,
    ) -> (r: Option<Placement>)
        requires
            old(self).wf(),
            start_row < old(self).num_rows(),
            start_col < old(self).num_cols(),
            forall|j: int| 0 <= j < order@.len() ==> direction_table().contains(#[trigger] order@[j]),
        ensures
            final(self).wf(),
            final(self).same_setup(old(self)),
            r is None <==> misses_from(
                *old(self),
                word@,
                start_row as int,
                start_col as int,
                order@,
            ),
            r is None ==> *final(self) == *old(self),
            r matches Some(p) ==> {
                &&& p.word@ == word@
                &&& is_word(word@)
                &&& !old(self).placed().contains(word@)
                &&& scan_finds(
                    *old(self),
                    start_row as int,
                    start_col as int,
                    p.row as int,
                    p.col as int,
                )
                &&& exists|d: Direction|
                    #[trigger] first_fit_in(
                        *old(self),
                        p.row as int,
                        p.col as int,
                        word@,
                        order@,
                        d,
                    ) && placement_done(*old(self), *final(self), p, d)
                &&& final(self).placed() == old(self).placed().push(word@)
                &&& p.step == final(self).placed().len()
            },
    {
        proof {
            lemma_table_wf();
        }
        if !is_placeable(word.as_str()) || self.contains_word(&word) || self.get_empty_cells() == 0 {
            return None;
        }
        let (row, col) = self.first_empty_from(start_row, start_col);
        match self.first_fitting(row, col, &word, order) {
            None => None,
            Some(direction) => {
                let ghost before = *self;
                let ghost i = choose|i: int|
                    0 <= i < order@.len() && #[trigger] order@[i] == direction && before.fits_at(
                        row as int,
                        col as int,
                        direction,
                        word@,
                    ) && forall|j: int|
                        0 <= j < i ==> !before.fits_at(
                            row as int,
                            col as int,
                            #[trigger] order@[j],
                            word@,
                        );
                assert(direction_table().contains(order@[i]));
                self.place_word_on_board(row, col, direction, word.clone());
                let p = Placement {
                    direction: direction.dbg_name,
                    row,
                    col,
                    word,
                    step: self.words.len(),
                };
                assert(placement_done(before, *self, p, direction));
                assert(self.placed() == before.placed().push(p.word@));
                assert(!misses_from(before, p.word@, start_row as int, start_col as int, order@)) by {
                    if exists|r: int, c: int|
                        #[trigger] scan_finds(before, start_row as int, start_col as int, r, c)
                            && forall|j: int|
                            0 <= j < order@.len() ==> !before.fits_at(
                                r,
                                c,
                                #[trigger] order@[j],
                                p.word@,
                            ) {
                        let (r, c) = choose|r: int, c: int|
                            #[trigger] scan_finds(before, start_row as int, start_col as int, r, c)
                                && forall|j: int|
                                0 <= j < order@.len() ==> !before.fits_at(
                                    r,
                                    c,
                                    #[trigger] order@[j],
                                    p.word@,
                                );
                        lemma_scan_unique(
                            before,
                            start_row as int,
                            start_col as int,
                            r,
                            c,
                            row as int,
                            col as int,
                        );
                    }
                }
                Some(p)
            },
        }
    }

    /// Tries to put `word` on the board: a start cell is drawn at random and the
    /// directions are shuffled, then `place_with` decides. Nothing changes when
    /// the word is refused or no direction fits.
    pub fn try_place_word(&mut self, word: String, rng: &mut rand::rngs::StdRng) -> (r: Option<
        Placement,
    >)
        requires
            old(self).wf(),
        ensures
            final(self).wf(),
            final(self).same_setup(old(self)),
            r is None ==> *final(self) == *old(self),
            r is None ==> misses(*old(self), word@),
            r matches Some(p) ==> {
                &&& p.word@ == word@
                &&& is_word(word@)
                &&& !old(self).placed().contains(word@)
                &&& exists|d: Direction| #[trigger] placement_done(*old(self), *final(self), p, d)
                &&& final(self).placed() == old(self).placed().push(word@)
                &&& p.step == final(self).placed().len()
            },
    {
        let start_row = random_below(rng, self.rows);
        let start_col = random_below(rng, self.cols);
        let order = shuffled_directions(rng);
        let ghost before = *self;
        let ghost w = word@;
        let r = self.place_with(word, start_row, start_col, &order);
        proof {
            if r is None && !misses(before, w) {
                assert(misses_from(before, w, start_row as int, start_col as int, order@));
                assert(is_word(w) && !before.placed().contains(w) && count_empty(before.cells()) != 0);
                let (rr, cc) = choose|rr: int, cc: int|
                    #[trigger] scan_finds(before, start_row as int, start_col as int, rr, cc)
                        && forall|j: int|
                        0 <= j < order@.len() ==> !before.fits_at(rr, cc, #[trigger] order@[j], w);
                let rc = (rr, cc);
                assert(in_grid(before.cells(), rc.0, rc.1)) by {
                    lemma_board_shape(before);
                    assert(before.cells()[rc.0].len() == before.num_cols());
                }
                assert forall|d: Direction| #[trigger]
                    direction_table().contains(d) implies !before.fits_at(rc.0, rc.1, d, w) by {
                    assert(order@.contains(d));
                    let j = choose|j: int| 0 <= j < order@.len() && order@[j] == d;
                }
            }
        }
        r
    }
}

/// The scan from a start cell finds one cell only.
pub proof fn lemma_scan_unique(b: Board, row: int, col: int, r1: int, c1: int, r2: int, c2: int)
    requires
        b.wf(),
        0 <= row < b.num_rows(),
        0 <= col < b.num_cols(),
        scan_finds(b, row, col, r1, c1),
        scan_finds(b, row, col, r2, c2),
    ensures
        r1 == r2,
        c1 == c2,
{
    let cols = b.num_cols() as int;
    let n = (b.num_rows() * b.num_cols()) as int;
    let k0 = linear(row, col, cols);
    lemma_linear_bound(row, col, b.num_rows() as int, cols);
    lemma_linear_bound(r1, c1, b.num_rows() as int, cols);
    lemma_linear_bound(r2, c2, b.num_rows() as int, cols);
    let d1 = cyclic_distance(k0, linear(r1, c1, cols), n);
    let d2 = cyclic_distance(k0, linear(r2, c2, cols), n);
    assert(b.cells()[r1][c1] == EMPTY);
    assert(b.cells()[r2][c2] == EMPTY);
    assert(d1 == d2);
    lemma_linear_injective(r1, c1, r2, c2, cols);
}

/// Laying `p` along `d` took `before` to `after` (see `placement_step`): no letter
/// was erased or replaced, the empty count fell by exactly the cells the word
/// newly filled, and as many cells as the solution has letters stay empty.
pub open spec fn placement_done(before: Board, after: Board, p: Placement, d: Direction) -> bool {
    &&& placement_step(before, after, p, d)
    &&& letters_kept(before.cells(), after.cells())
    &&& count_empty(after.cells()) + newly_filled(
        before.cells(),
        p.row as int,
        p.col as int,
        d,
        p.word@.len() as int,
    ) == count_empty(before.cells())
    &&& count_empty(after.cells()) >= after.solution_view().len()
}

/// Why `place_with` leaves `w` out when starting its scan at `(row, col)` and
/// trying directions in `order`.
pub open spec fn misses_from(b: Board, w: Seq<char>, row: int, col: int, order: Seq<Direction>) -> bool {
    ||| !is_word(w)
    ||| b.placed().contains(w)
    ||| count_empty(b.cells()) == 0
    ||| exists|r: int, c: int|
        #[trigger] scan_finds(b, row, col, r, c) && forall|j: int|
            0 <= j < order.len() ==> !b.fits_at(r, c, #[trigger] order[j], w)
}

/// Why `w` can be left out whatever the draws: it is no word, it was placed
/// already, no cell is empty, or some empty cell admits no direction at all.
pub open spec fn misses(b: Board, w: Seq<char>) -> bool {
    ||| !is_word(w)
    ||| b.placed().contains(w)
    ||| count_empty(b.cells()) == 0
    ||| exists|r: int, c: int|
        in_grid(b.cells(), r, c) && b.cells()[r][c] == EMPTY && forall|d: Direction| #[trigger]
            direction_table().contains(d) ==> !b.fits_at(r, c, d, w)
}

/// A well-formed board has its declared shape, at least one cell, a cell count
/// that fits in a `usize`, and no word placed twice.
pub proof fn lemma_board_shape(b: Board)
    requires
        b.wf(),
    ensures
        b.num_rows() > 0,
        b.num_cols() > 0,
        b.num_rows() * b.num_cols() <= usize::MAX,
        is_rect(b.cells(), b.num_rows(), b.num_cols()),
        b.placed().no_duplicates(),
        count_empty(b.cells()) <= b.num_rows() * b.num_cols(),
{
    lemma_count_bound(b.cells(), b.num_rows(), b.num_cols());
}

/// Why stored parts do not make a board.
#[derive(PartialEq, Eq, Structural, Clone, Copy, Debug)]
pub enum ShapeError {
    /// A dimension is zero, or the cell count does not fit in a `usize`.
    BadDimensions,
    /// The grid text does not hold exactly `rows * cols` characters.
    BadGridLength,
}

/// The words of `s` with repeats dropped, each kept where it first occurs.
pub open spec fn distinct_in_order(s: Seq<Seq<char>>) -> Seq<Seq<char>>
    decreases s.len(),
{
    if s.len() == 0 {
        Seq::empty()
    } else {
        let d = distinct_in_order(s.drop_last());
        if d.contains(s.last()) {
            d
        } else {
            d.push(s.last())
        }
    }
}

impl Board {
    /// Number of rows.
    pub fn rows(&self) -> (r: usize)
        ensures
            r == self.num_rows(),
    {
        self.rows
    }

    /// Number of columns.
    pub fn cols(&self) -> (r: usize)
        ensures
            r == self.num_cols(),
    {
        self.cols
    }

    /// The message the board was made for.
    pub fn message(&self) -> (r: String)
        ensures
            r@ == self.message_view(),
    {
        self.message.clone()
    }

    /// The letters kept empty cells for: the upper-cased letters of the message.
    pub fn solution(&self) -> (r: String)
        ensures
            r@ == self.solution_view(),
    {
        self.solution.clone()
    }

    /// The letter in cell `(r, c)`, or `EMPTY`.
    pub fn cell(&self, r: usize, c: usize) -> (ch: char)
        requires
            self.wf(),
            r < self.num_rows(),
            c < self.num_cols(),
        ensures
            ch == self.cells()[r as int][c as int],
    {
        assert(self.cells()[r as int].len() == self.cols);
        self.grid[r][c]
    }

    /// The placed words, in the order they were placed.
    pub fn words(&self) -> (r: Vec<String>)
        ensures
            r@.map_values(|w: String| w@) == self.placed(),
    {
        let mut r: Vec<String> = Vec::new();
        let mut i: usize = 0;
        while i < self.words.len()
            invariant
                i <= self.words@.len(),
                r@.len() == i,
                r@.map_values(|w: String| w@) == self.placed().take(i as int),
            decreases self.words@.len() - i,
        {
            let w = self.words[i].clone();
            r.push(w);
            assert(r@[i as int]@ == self.placed()[i as int]);
            assert(r@.map_values(|w: String| w@) =~= self.placed().take(i + 1));
            i = i + 1;
        }
        assert(self.placed().take(i as int) =~= self.placed());
        r
    }

    /// The grid as one string of `rows * cols` characters, row after row.
    pub fn grid_string(&self) -> (s: String)
        ensures
            s@ == flatten(self.cells()),
    {
        assert(grid_view(&self.grid) =~= self.cells());
        grid_to_string(&self.grid)
    }

    /// Rebuilds a board from its stored parts: the grid text is cut into rows of
    /// `cols` characters, and the history gives the placed words (a repeat is
    /// kept once).
    pub fn restore(
        rows: usize,
        cols: usize,
        message: String,
        solution: String,
        grid: &str,
        history: &Vec<String>,
    ) -> (r: Result<Board, ShapeError>)
        ensures
            r == Err::<Board, ShapeError>(ShapeError::BadDimensions) <==> (rows == 0 || cols == 0
                || rows * cols > usize::MAX),
            r == Err::<Board, ShapeError>(ShapeError::BadGridLength) <==> (rows > 0 && cols > 0
                && rows * cols <= usize::MAX && grid@.len() != rows * cols),
            r matches Ok(b) ==> {
                &&& b.wf()
                &&& b.num_rows() == rows
                &&& b.num_cols() == cols
                &&& b.message_view() == message@
                &&& b.solution_view() == solution@
                &&& b.cells() == chunk(grid@, cols as nat)
                &&& b.placed() == distinct_in_order(history@.map_values(|w: String| w@))
            },
    {
        if rows == 0 || cols == 0 || !cells_fit(rows, cols) {
            return Err(ShapeError::BadDimensions);
        }
        if grid.unicode_len() != rows * cols {
            return Err(ShapeError::BadGridLength);
        }
        let cells = string_to_grid(grid, cols);
        proof {
            lemma_div_by_multiple(rows as int, cols as int);
            assert(grid@.len() / (cols as nat) == rows);
            assert forall|k: int| 0 <= k < rows implies #[trigger] grid_view(&cells)[k].len() == cols by {
                lemma_mul_inequality(k + 1, rows as int, cols as int);
                lemma_mul_is_distributive_add_other_way(cols as int, k, 1);
                assert(0 <= k * cols) by (nonlinear_arith)
                    requires
                        0 <= k,
                        0 < cols,
                ;
            }
            assert(is_rect(grid_view(&cells), rows as nat, cols as nat));
        }
        let ghost hist = history@.map_values(|w: String| w@);
        let mut words: Vec<String> = Vec::new();
        let mut i: usize = 0;
        while i < history.len()
            invariant
                hist == history@.map_values(|w: String| w@),
                i <= history@.len(),
                words@.map_values(|w: String| w@) == distinct_in_order(hist.take(i as int)),
                words@.map_values(|w: String| w@).no_duplicates(),
            decreases history@.len() - i,
        {
            let ghost before = words@.map_values(|w: String| w@);
            assert(hist.take(i + 1).drop_last() =~= hist.take(i as int));
            let mut seen = false;
            let mut j: usize = 0;
            while j < words.len()
                invariant
                    j <= words@.len(),
                    i < history@.len(),
                    before == words@.map_values(|w: String| w@),
                    seen == exists|k: int| 0 <= k < j && before[k] == history@[i as int]@,
                decreases words@.len() - j,
            {
                if words[j] == history[i] {
                    assert(before[j as int] == history@[i as int]@);
                    seen = true;
                }
                j = j + 1;
            }
            if !seen {
                words.push(history[i].clone());
                proof {
                    assert(!before.contains(hist[i as int]));
                    assert(words@.map_values(|w: String| w@) =~= before.push(hist[i as int]));
                    let p = words@.map_values(|w: String| w@);
                    assert forall|x: int, y: int| 0 <= x < p.len() && 0 <= y < p.len() && x != y
                        implies p[x] != p[y] by {
                        if y == p.len() - 1 {
                            assert(before[x] == p[x]);
                        } else if x == p.len() - 1 {
                            assert(before[y] == p[y]);
                        }
                    }
                }
            } else {
                proof {
                    let k = choose|k: int| 0 <= k < j && before[k] == history@[i as int]@;
                    assert(before.contains(hist[i as int]));
                }
            }
            i = i + 1;
        }
        assert(hist.take(i as int) =~= hist);
        let b = Board { rows, cols, message, solution, grid: cells, words };
        assert(b.cells() =~= grid_view(&b.grid));
        Ok(b)
    }
}

} // verus!
