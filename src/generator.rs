//! Building a finished puzzle: words drawn from the dictionary are offered to the
//! board until exactly as many cells stay empty as the solution has letters.

use crate::board::{lemma_board_shape, misses, placement_done, placement_step, Board, Placement};
use crate::dictionary::{candidates, views, Dictionary};
use crate::direction::{direction_table, Direction};
use crate::grid::{
    blank, can_place, count_empty, in_grid, is_word, lemma_count_blank, lemma_word_stays,
    letter_at, on_path, path_col, path_row, placed_grid, step_fits, word_on_grid, EMPTY,
};
use vstd::seq_lib::to_multiset_contains;
use crate::text::{letters_of, upper_of};
use vstd::prelude::*;

verus! {

/// How many words are offered before generation gives up.
pub const DEFAULT_ATTEMPT_BUDGET: usize = 200000;

/// Why no puzzle came out.
#[derive(PartialEq, Eq, Structural, Clone, Copy, Debug)]
pub enum GenerateError {
    /// A dimension is zero, or the cell count does not fit in a `usize`.
    InvalidDimensions,
    /// The message has more letters than the board has cells.
    MessageTooLong,
    /// No word of the list has a usable length, yet cells remain to fill.
    EmptyDictionary,
    /// The attempt budget ran out before the board was complete.
    Exhausted,
}

/// Placement `p` stands on grid `g`, along the table direction `d` that its label names.
pub open spec fn placement_on_grid(g: Seq<Seq<char>>, p: Placement, d: Direction) -> bool {
    &&& direction_table().contains(d)
    &&& d.dbg_name == p.direction
    &&& is_word(p.word@)
    &&& word_on_grid(g, p.row as int, p.col as int, d, p.word@)
}

/// Placement `p` stands on grid `g` along some table direction that its label names.
pub open spec fn logged_on_grid(g: Seq<Seq<char>>, p: Placement) -> bool {
    exists|d: Direction| placement_on_grid(g, p, d)
}

/// The log matches the board: one entry per placed word, in order, numbered from
/// one, and every logged word stands on the grid where the entry says.
pub open spec fn log_matches(b: Board, log: Seq<Placement>) -> bool {
    &&& log.len() == b.placed().len()
    &&& forall|k: int| 0 <= k < log.len() ==> (#[trigger] log[k]).step == k + 1
    &&& forall|k: int| 0 <= k < log.len() ==> (#[trigger] log[k]).word@ == b.placed()[k]
    &&& forall|k: int| 0 <= k < log.len() ==> logged_on_grid(b.cells(), #[trigger] log[k])
}

/// A placement step leaves the placed word on the new grid.
proof fn lemma_step_on_grid(before: Board, after: Board, p: Placement, d: Direction)
    requires
        is_word(p.word@),
        placement_step(before, after, p, d),
    ensures
        placement_on_grid(after.cells(), p, d),
{
    let g = before.cells();
    assert forall|i: int| 0 <= i < p.word@.len() implies #[trigger] letter_at(
        after.cells(),
        p.row as int,
        p.col as int,
        d,
        p.word@,
        i,
    ) by {
        assert(step_fits(g, p.row as int, p.col as int, d, p.word@, i));
        let r = path_row(p.row as int, d, i);
        assert(after.cells()[r].len() == g[r].len());
    }
}

/// One attempt of the generation loop: a random word of the dictionary is offered
/// to the board. It is only ever made while the board is not complete.
pub fn generation_step(board: &mut Board, dictionary: &Dictionary, rng: &mut rand::rngs::StdRng) -> (r:
    Option<Placement>)
    requires
        old(board).wf(),
        !old(board).is_complete(),
        dictionary@.len() > 0,
    ensures
        final(board).wf(),
        final(board).same_setup(old(board)),
        r is None ==> *final(board) == *old(board),
        r is None ==> exists|w: Seq<char>| #[trigger]
            dictionary@.contains(w) && misses(*old(board), w),
        r matches Some(p) ==> {
            &&& dictionary@.contains(p.word@)
            &&& is_word(p.word@)
            &&& exists|d: Direction| #[trigger] placement_done(*old(board), *final(board), p, d)
            &&& final(board).placed() == old(board).placed().push(p.word@)
            &&& p.step == final(board).placed().len()
        },
{
    let word = dictionary.get_random_word(rng);
    let ghost w = word@;
    let r = board.try_place_word(word, rng);
    proof {
        if r is None {
            assert(dictionary@.contains(w) && misses(*old(board), w));
        }
    }
    r
}

/// The cell `(r, c)` holding `ch` is on the path of some logged placement, which
/// puts `ch` there.
pub open spec fn covers(log: Seq<Placement>, dirs: Seq<Direction>, r: int, c: int, ch: char) -> bool {
    exists|k: int, i: int|
        0 <= k < log.len() && 0 <= i < log[k].word@.len() && #[trigger] path_row(
            log[k].row as int,
            dirs[k],
            i,
        ) == r && path_col(log[k].col as int, dirs[k], i) == c && log[k].word@[i] == ch
}

/// Every lettered cell of `g` is covered by a logged placement.
pub open spec fn covered(g: Seq<Seq<char>>, log: Seq<Placement>, dirs: Seq<Direction>) -> bool {
    forall|r: int, c: int|
        in_grid(g, r, c) && g[r][c] != EMPTY ==> #[trigger] covers(log, dirs, r, c, g[r][c])
}

/// Step `k` of a replay: from grid `hist[k]`, still short of completion, the
/// `k`-th logged word is accepted at its empty start cell along the table
/// direction `dirs[k]` that its label names, and laid to give `hist[k + 1]`.
pub open spec fn step_in_history(
    hist: Seq<Seq<Seq<char>>>,
    log: Seq<Placement>,
    dirs: Seq<Direction>,
    reserved: nat,
    k: int,
) -> bool {
    let p = log[k];
    let d = dirs[k];
    &&& direction_table().contains(d)
    &&& d.dbg_name == p.direction
    &&& count_empty(hist[k]) > reserved
    &&& in_grid(hist[k], p.row as int, p.col as int)
    &&& hist[k][p.row as int][p.col as int] == EMPTY
    &&& can_place(hist[k], reserved, p.row as int, p.col as int, d, p.word@)
    &&& placed_grid(hist[k], hist[k + 1], p.row as int, p.col as int, d, p.word@)
}

/// Replaying `log` on `start` gives the grids `hist`, ending in `end`: every step
/// is accepted on a grid that is not yet complete (more than `reserved` empty
/// cells), and every letter of `end` comes from a logged placement.
pub open spec fn generation_history(
    start: Seq<Seq<char>>,
    reserved: nat,
    end: Seq<Seq<char>>,
    log: Seq<Placement>,
    hist: Seq<Seq<Seq<char>>>,
    dirs: Seq<Direction>,
) -> bool {
    &&& hist.len() == log.len() + 1
    &&& dirs.len() == log.len()
    &&& hist[0] == start
    &&& hist[log.len() as int] == end
    &&& forall|k: int| 0 <= k < log.len() ==> #[trigger] step_in_history(hist, log, dirs, reserved, k)
    &&& covered(end, log, dirs)
}

/// Laying one more placement keeps every lettered cell covered.
proof fn lemma_cover_step(
    g1: Seq<Seq<char>>,
    g2: Seq<Seq<char>>,
    log: Seq<Placement>,
    dirs: Seq<Direction>,
    p: Placement,
    d: Direction,
)
    requires
        dirs.len() == log.len(),
        covered(g1, log, dirs),
        placed_grid(g1, g2, p.row as int, p.col as int, d, p.word@),
    ensures
        covered(g2, log.push(p), dirs.push(d)),
{
    let log2 = log.push(p);
    let dirs2 = dirs.push(d);
    let n = log.len() as int;
    assert forall|r: int, c: int| in_grid(g2, r, c) && g2[r][c] != EMPTY implies #[trigger] covers(
        log2,
        dirs2,
        r,
        c,
        g2[r][c],
    ) by {
        if on_path(p.row as int, p.col as int, d, p.word@.len() as int, r, c) {
            let i = choose|i: int|
                0 <= i < p.word@.len() && path_row(p.row as int, d, i) == r && path_col(
                    p.col as int,
                    d,
                    i,
                ) == c;
            assert(g2[path_row(p.row as int, d, i)][path_col(p.col as int, d, i)] == p.word@[i]);
            assert(log2[n] == p && dirs2[n] == d);
            assert(path_row(log2[n].row as int, dirs2[n], i) == r);
        } else {
            assert(g2[r].len() == g1[r].len());
            assert(in_grid(g1, r, c));
            assert(g2[r][c] == g1[r][c]);
            assert(covers(log, dirs, r, c, g1[r][c]));
            let (k, i) = choose|k: int, i: int|
                0 <= k < log.len() && 0 <= i < log[k].word@.len() && #[trigger] path_row(
                    log[k].row as int,
                    dirs[k],
                    i,
                ) == r && path_col(log[k].col as int, dirs[k], i) == c && log[k].word@[i]
                    == g1[r][c];
            assert(log2[k] == log[k] && dirs2[k] == dirs[k]);
            assert(path_row(log2[k].row as int, dirs2[k], i) == r);
        }
    }
}

/// Generates a puzzle for a `rows` by `cols` board and `message`, drawing words
/// from `words`, with the default attempt budget.
pub fn generate_board_with_dictionary(
    rows: usize,
    cols: usize,
    message: String,
    words: &Vec<String>,
    rng: &mut rand::rngs::StdRng,
) -> (r: Result<(Board, Vec<Placement>), GenerateError>)
    ensures
        generation_result(rows, cols, message@, views(words@), DEFAULT_ATTEMPT_BUDGET, r),
{
    generate_with_budget(rows, cols, message, words, rng, DEFAULT_ATTEMPT_BUDGET)
}

/// Longest word that can lie on a `rows` by `cols` board.
pub open spec fn max_word_length(rows: usize, cols: usize) -> nat {
    if rows >= cols {
        rows as nat
    } else {
        cols as nat
    }
}

/// What a generation run promises, given its inputs and its result.
pub open spec fn generation_result(
    rows: usize,
    cols: usize,
    message: Seq<char>,
    words: Seq<Seq<char>>,
    max_attempts: usize,
    r: Result<(Board, Vec<Placement>), GenerateError>,
) -> bool {
    let dims_ok = rows > 0 && cols > 0 && rows * cols <= usize::MAX;
    let solution = letters_of(upper_of(message));
    let done_at_start = rows * cols == solution.len();
    let too_long = solution.len() > rows * cols;
    let cands = candidates(words, max_word_length(rows, cols));
    let no_words = cands.len() == 0;
    &&& (r == Err::<(Board, Vec<Placement>), GenerateError>(GenerateError::InvalidDimensions)
        <==> !dims_ok)
    &&& (r == Err::<(Board, Vec<Placement>), GenerateError>(GenerateError::MessageTooLong)
        <==> dims_ok && too_long)
    &&& (r == Err::<(Board, Vec<Placement>), GenerateError>(GenerateError::EmptyDictionary)
        <==> dims_ok && !done_at_start && !too_long && no_words)
    &&& (r == Err::<(Board, Vec<Placement>), GenerateError>(GenerateError::Exhausted)
        ==> dims_ok && !done_at_start && !too_long && !no_words)
    &&& (dims_ok && done_at_start ==> (r matches Ok((b, log)) && log@.len() == 0))
    &&& (r matches Ok((b, log)) ==> generated_ok(rows, cols, message, words, b, log@))
}

/// What a successful run returns: a complete board of the requested shape for
/// `message`, whose log lists its placed words in order, each a candidate word
/// of the list, and replays from the fresh board, every step accepted on a
/// board not yet complete, to a grid whose every letter comes from the log.
pub open spec fn generated_ok(
    rows: usize,
    cols: usize,
    message: Seq<char>,
    words: Seq<Seq<char>>,
    b: Board,
    log: Seq<Placement>,
) -> bool {
    let solution = letters_of(upper_of(message));
    let cands = candidates(words, max_word_length(rows, cols));
    &&& b.wf()
    &&& b.is_complete()
    &&& b.num_rows() == rows
    &&& b.num_cols() == cols
    &&& b.message_view() == message
    &&& b.solution_view() == solution
    &&& log_matches(b, log)
    &&& forall|k: int| 0 <= k < log.len() ==> cands.contains(#[trigger] log[k].word@)
    &&& exists|hist: Seq<Seq<Seq<char>>>, dirs: Seq<Direction>|
        generation_history(blank(rows as nat, cols as nat), solution.len(), b.cells(), log, hist, dirs)
}

/// Generates a puzzle, offering at most `max_attempts` words: a fresh board is
/// built, then random dictionary words are offered until the board is complete.
/// The loop stops at the first complete board; if the budget runs out first,
/// the run fails with `Exhausted` rather than returning a partial board. A
/// message with more letters than the board has cells is refused at once.
pub fn generate_with_budget(
    rows: usize,
    cols: usize,
    message: String,
    words: &Vec<String>,
    rng: &mut rand::rngs::StdRng,
    max_attempts: usize,
) -> (r: Result<(Board, Vec<Placement>), GenerateError>)
    ensures
        generation_result(rows, cols, message@, views(words@), max_attempts, r),
{
    if rows == 0 || cols == 0 || !crate::grid::cells_fit(rows, cols) {
        return Err(GenerateError::InvalidDimensions);
    }
    let ghost msg = message@;
    let mut board = Board::new(rows, cols, message);
    proof {
        lemma_count_blank(rows as nat, cols as nat);
    }
    let max_len = if rows >= cols {
        rows
    } else {
        cols
    };
    let dictionary = Dictionary::from_word_list(words, max_len, rng);
    let ghost cands = candidates(views(words@), max_word_length(rows, cols));
    proof {
        dictionary@.to_multiset_ensures();
        cands.to_multiset_ensures();
    }
    let mut placements: Vec<Placement> = Vec::new();
    if board.is_filled() {
        proof {
            let hist0: Seq<Seq<Seq<char>>> = seq![board.cells()];
            assert(covered(board.cells(), placements@, Seq::<Direction>::empty()));
            assert(generation_history(
                blank(rows as nat, cols as nat),
                board.solution_view().len(),
                board.cells(),
                placements@,
                hist0,
                Seq::<Direction>::empty(),
            ));
            assert(generated_ok(rows, cols, message@, views(words@), board, placements@));
        }
        return Ok((board, placements));
    }
    if board.solution().as_str().unicode_len() > rows * cols {
        return Err(GenerateError::MessageTooLong);
    }
    if dictionary.len() == 0 {
        return Err(GenerateError::EmptyDictionary);
    }
    assert(cands.len() > 0);
    let ghost start = board;
    let ghost reserved = letters_of(upper_of(msg)).len();
    let ghost mut dirs: Seq<Direction> = Seq::empty();
    let ghost mut hist: Seq<Seq<Seq<char>>> = seq![board.cells()];
    let mut attempts: usize = 0;
    while !board.is_filled()
        invariant
            rows > 0 && cols > 0 && rows * cols <= usize::MAX,
            msg == message@,
            reserved == letters_of(upper_of(msg)).len(),
            rows * cols > reserved,
            dictionary@.to_multiset() == cands.to_multiset(),
            forall|k: int| 0 <= k < placements@.len() ==> cands.contains(#[trigger] placements@[k].word@),
            hist.len() == placements@.len() + 1,
            hist[0] == blank(rows as nat, cols as nat),
            hist[placements@.len() as int] == board.cells(),
            forall|k: int|
                0 <= k < placements@.len() ==> #[trigger] step_in_history(
                    hist,
                    placements@,
                    dirs,
                    reserved,
                    k,
                ),
            covered(board.cells(), placements@, dirs),
            cands == candidates(views(words@), max_word_length(rows, cols)),
            cands.len() > 0,
            board.wf(),
            board.same_setup(&start),
            start.num_rows() == rows,
            start.num_cols() == cols,
            start.message_view() == msg,
            start.solution_view() == letters_of(upper_of(msg)),
            dictionary@.len() > 0,
            attempts <= max_attempts,
            dirs.len() == placements@.len(),
            placements@.len() == board.placed().len(),
            forall|k: int| 0 <= k < placements@.len() ==> (#[trigger] placements@[k]).step == k + 1,
            forall|k: int|
                0 <= k < placements@.len() ==> (#[trigger] placements@[k]).word@ == board.placed()[k],
            forall|k: int|
                0 <= k < placements@.len() ==> placement_on_grid(
                    board.cells(),
                    #[trigger] placements@[k],
                    dirs[k],
                ),
        decreases max_attempts - attempts,
    {
        if attempts == max_attempts {
            return Err(GenerateError::Exhausted);
        }
        attempts = attempts + 1;
        let ghost before = board;
        match generation_step(&mut board, &dictionary, rng) {
            Some(p) => {
                proof {
                    let d = choose|d: Direction| #[trigger] placement_done(before, board, p, d);
                    lemma_step_on_grid(before, board, p, d);
                    assert forall|k: int| 0 <= k < placements@.len() implies placement_on_grid(
                        board.cells(),
                        #[trigger] placements@[k],
                        dirs[k],
                    ) by {
                        assert(placement_on_grid(before.cells(), placements@[k], dirs[k]));
                        lemma_word_stays(
                            before.cells(),
                            board.cells(),
                            placements@[k].row as int,
                            placements@[k].col as int,
                            dirs[k],
                            placements@[k].word@,
                        );
                    }
                    to_multiset_contains(dictionary@, p.word@);
                    to_multiset_contains(cands, p.word@);
                    lemma_cover_step(before.cells(), board.cells(), placements@, dirs, p, d);
                    lemma_board_shape(before);
                    assert(before.cells()[p.row as int].len() == cols);
                    let log2 = placements@.push(p);
                    let dirs2 = dirs.push(d);
                    let hist2 = hist.push(board.cells());
                    let n = placements@.len() as int;
                    assert(step_in_history(hist2, log2, dirs2, reserved, n));
                    assert forall|k: int| 0 <= k < log2.len() implies #[trigger] step_in_history(
                        hist2,
                        log2,
                        dirs2,
                        reserved,
                        k,
                    ) by {
                        if k < n {
                            assert(step_in_history(hist, placements@, dirs, reserved, k));
                            assert(hist2[k] == hist[k] && hist2[k + 1] == hist[k + 1]);
                            assert(log2[k] == placements@[k] && dirs2[k] == dirs[k]);
                        }
                    }
                    dirs = dirs2;
                    hist = hist2;
                }
                placements.push(p);
            },
            None => {},
        }
    }
    proof {
        assert forall|k: int| 0 <= k < placements@.len() implies logged_on_grid(
            board.cells(),
            #[trigger] placements@[k],
        ) by {
            assert(placement_on_grid(board.cells(), placements@[k], dirs[k]));
        }
        assert(generation_history(
            blank(rows as nat, cols as nat),
            reserved,
            board.cells(),
            placements@,
            hist,
            dirs,
        ));
        assert(generated_ok(rows, cols, message@, views(words@), board, placements@));
    }
    Ok((board, placements))
}

} // verus!
