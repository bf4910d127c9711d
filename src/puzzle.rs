//! The records a puzzle travels in: the stored form (`PuzzleDAO`), the form handed
//! to clients (`PuzzleDTO`), and the request and response bodies around them.

use crate::board::{distinct_in_order, Board, Placement, ShapeError};
use crate::dictionary::views;
use crate::layout::{chunk, flatten};
use crate::random::random_below;
use crate::text::{decimal, decimal_string, push_char};
use vstd::prelude::*;

verus! {

/// A puzzle as it is stored: dimensions as `u64`, grid as one string.
pub struct PuzzleDAO {
    pub id: String,
    pub created_date: String,
    pub rows: u64,
    pub cols: u64,
    pub original_message: String,
    pub solution: String,
    pub grid: String,
    pub history: Vec<String>,
}

/// A puzzle as it is handed to a client.
pub struct PuzzleDTO {
    pub id: String,
    pub created_date: String,
    pub rows: usize,
    pub cols: usize,
    pub original_message: String,
    pub solution: String,
    pub grid: String,
    pub history: Vec<String>,
}

/// A request for a new puzzle.
pub struct CreateBoardParams {
    pub rows: usize,
    pub cols: usize,
    pub message: String,
}

/// The dimensions and message of a puzzle to generate.
pub struct Params {
    pub rows: usize,
    pub cols: usize,
    pub message: String,
}

/// An error reported to a client.
pub struct ErrorResponse {
    pub message: String,
    pub status: u16,
}

/// The identifier of a newly stored puzzle.
pub struct CreateResponse {
    pub id: String,
}

/// Length of the identifiers given to stored puzzles.
pub const PUZZLE_ID_LENGTH: usize = 10;

/// The characters of the `SAFE` alphabet of nanoid.
pub open spec fn safe_id_char(c: char) -> bool {
    c == '_' || c == '-' || ('0' <= c && c <= '9') || ('a' <= c && c <= 'z') || ('A' <= c && c
        <= 'Z')
}

/// Relies on `nanoid::format` with `nanoid::rngs::default` and the
/// `nanoid::alphabet::SAFE` alphabet: it returns exactly `size` characters, each
/// taken from that alphabet (with `size == 0` it would never return).
#[verifier::external_body]
fn random_safe_id(size: usize) -> (r: String)
    requires
        size > 0,
    ensures
        r@.len() == size,
        forall|i: int| 0 <= i < r@.len() ==> safe_id_char(#[trigger] r@[i]),
{
    nanoid::format(nanoid::rngs::default, &nanoid::alphabet::SAFE, size)
}

/// Relies on `chrono::Utc::now` and `chrono::DateTime::to_rfc3339`: the current
/// time, as RFC 3339 text.
#[verifier::external_body]
fn now_rfc3339() -> (r: String) {
    chrono::Utc::now().to_rfc3339()
}

/// The characters that `generate_random_id` draws from.
pub open spec fn id_alphabet() -> Seq<char> {
    "_0123456789abcdefghijklmnopqrstuvwxyzABCDEFGHIJKLMNOPQRSTUVWXYZ"@
}

/// An identifier of `length` characters, each drawn at random from `id_alphabet`.
pub fn generate_random_id(length: usize, rng: &mut rand::rngs::StdRng) -> (r: String)
    ensures
        r@.len() == length,
        forall|i: int| 0 <= i < r@.len() ==> id_alphabet().contains(#[trigger] r@[i]),
{
    let alphabet = "_0123456789abcdefghijklmnopqrstuvwxyzABCDEFGHIJKLMNOPQRSTUVWXYZ";
    proof {
        reveal_strlit("_0123456789abcdefghijklmnopqrstuvwxyzABCDEFGHIJKLMNOPQRSTUVWXYZ");
    }
    let n = alphabet.unicode_len();
    let mut generated_id = String::new();
    let mut i: usize = 0;
    while i < length
        invariant
            alphabet@ == id_alphabet(),
            n == alphabet@.len(),
            n > 0,
            i <= length,
            generated_id@.len() == i,
            forall|j: int| 0 <= j < i ==> id_alphabet().contains(#[trigger] generated_id@[j]),
        decreases length - i,
    {
        let k = random_below(rng, n);
        let c = alphabet.get_char(k);
        assert(id_alphabet()[k as int] == c);
        push_char(&mut generated_id, c);
        i = i + 1;
    }
    generated_id
}

/// The stored form of `board`, under identifier `id` and creation time
/// `created_date`: the grid row after row, the placed words as history.
pub fn puzzle_dao_from_board(board: &Board, id: String, created_date: String) -> (r: PuzzleDAO)
    ensures
        r.id@ == id@,
        r.created_date@ == created_date@,
        r.rows == board.num_rows(),
        r.cols == board.num_cols(),
        r.original_message@ == board.message_view(),
        r.solution@ == board.solution_view(),
        r.grid@ == flatten(board.cells()),
        views(r.history@) == board.placed(),
{
    let rows = board.rows();
    let cols = board.cols();
    PuzzleDAO {
        id,
        created_date,
        rows: rows as u64,
        cols: cols as u64,
        original_message: board.message(),
        solution: board.solution(),
        grid: board.grid_string(),
        history: board.words(),
    }
}

/// The stored form of `board`, under a fresh random identifier of
/// `PUZZLE_ID_LENGTH` characters and the current time.
pub fn board_to_puzzle_dao(board: Board) -> (r: PuzzleDAO)
    ensures
        r.id@.len() == PUZZLE_ID_LENGTH,
        forall|i: int| 0 <= i < r.id@.len() ==> safe_id_char(#[trigger] r.id@[i]),
        r.rows == board.num_rows(),
        r.cols == board.num_cols(),
        r.original_message@ == board.message_view(),
        r.solution@ == board.solution_view(),
        r.grid@ == flatten(board.cells()),
        views(r.history@) == board.placed(),
{
    let id = random_safe_id(PUZZLE_ID_LENGTH);
    let created_date = now_rfc3339();
    puzzle_dao_from_board(&board, id, created_date)
}

/// The history line of a placement: `step|word|row|col|direction`.
pub open spec fn line_of(p: Placement) -> Seq<char> {
    decimal(p.step as nat) + seq!['|'] + p.word@ + seq!['|'] + decimal(p.row as nat) + seq!['|']
        + decimal(p.col as nat) + seq!['|'] + p.direction@
}

/// Appends `t` to `s`.
fn append(s: &mut String, t: &str)
    ensures
        final(s)@ == old(s)@ + t@,
{
    let mut i: usize = 0;
    let n = t.unicode_len();
    let ghost start = s@;
    while i < n
        invariant
            n == t@.len(),
            i <= n,
            s@ == start + t@.take(i as int),
        decreases n - i,
    {
        push_char(s, t.get_char(i));
        assert(t@.take(i + 1) =~= t@.take(i as int).push(t@[i as int]));
        i = i + 1;
    }
    assert(t@.take(n as int) =~= t@);
}

/// The history line of a placement: `step|word|row|col|direction`.
pub fn placement_line(p: &Placement) -> (r: String)
    ensures
        r@ == line_of(*p),
{
    let mut r = decimal_string(p.step);
    push_char(&mut r, '|');
    append(&mut r, p.word.as_str());
    push_char(&mut r, '|');
    let row = decimal_string(p.row);
    append(&mut r, row.as_str());
    push_char(&mut r, '|');
    let col = decimal_string(p.col);
    append(&mut r, col.as_str());
    push_char(&mut r, '|');
    append(&mut r, p.direction);
    assert(r@ =~= line_of(*p));
    r
}

/// The stored form of a generated puzzle, under identifier `id` and creation time
/// `created_date`: the grid row after row, and one history line per placement.
pub fn puzzle_dao_from_generation(
    board: &Board,
    placements: &Vec<Placement>,
    id: String,
    created_date: String,
) -> (r: PuzzleDAO)
    ensures
        r.id@ == id@,
        r.created_date@ == created_date@,
        r.rows == board.num_rows(),
        r.cols == board.num_cols(),
        r.original_message@ == board.message_view(),
        r.solution@ == board.solution_view(),
        r.grid@ == flatten(board.cells()),
        views(r.history@) == placements@.map_values(|p: Placement| line_of(p)),
{
    let mut history: Vec<String> = Vec::new();
    let mut i: usize = 0;
    while i < placements.len()
        invariant
            i <= placements@.len(),
            history@.len() == i,
            views(history@) == placements@.map_values(|p: Placement| line_of(p)).take(i as int),
        decreases placements@.len() - i,
    {
        let line = placement_line(&placements[i]);
        history.push(line);
        assert(views(history@) =~= placements@.map_values(|p: Placement| line_of(p)).take(i + 1));
        i = i + 1;
    }
    assert(placements@.map_values(|p: Placement| line_of(p)).take(i as int) =~= placements@.map_values(
        |p: Placement| line_of(p),
    ));
    let rows = board.rows();
    let cols = board.cols();
    PuzzleDAO {
        id,
        created_date,
        rows: rows as u64,
        cols: cols as u64,
        original_message: board.message(),
        solution: board.solution(),
        grid: board.grid_string(),
        history,
    }
}

/// The stored form of a generated puzzle, under a fresh random identifier of
/// `PUZZLE_ID_LENGTH` characters and the current time.
pub fn generation_to_puzzle_dao(board: &Board, placements: &Vec<Placement>) -> (r: PuzzleDAO)
    ensures
        r.id@.len() == PUZZLE_ID_LENGTH,
        forall|i: int| 0 <= i < r.id@.len() ==> safe_id_char(#[trigger] r.id@[i]),
        r.rows == board.num_rows(),
        r.cols == board.num_cols(),
        r.original_message@ == board.message_view(),
        r.solution@ == board.solution_view(),
        r.grid@ == flatten(board.cells()),
        views(r.history@) == placements@.map_values(|p: Placement| line_of(p)),
{
    let id = random_safe_id(PUZZLE_ID_LENGTH);
    let created_date = now_rfc3339();
    puzzle_dao_from_generation(board, placements, id, created_date)
}

/// The client form of a stored puzzle; every field is carried over.
pub fn puzzle_dao_to_puzzle_dto(puzzle_dao: PuzzleDAO) -> (r: PuzzleDTO)
    requires
        puzzle_dao.rows <= usize::MAX,
        puzzle_dao.cols <= usize::MAX,
    ensures
        r.id == puzzle_dao.id,
        r.created_date == puzzle_dao.created_date,
        r.rows == puzzle_dao.rows,
        r.cols == puzzle_dao.cols,
        r.original_message == puzzle_dao.original_message,
        r.solution == puzzle_dao.solution,
        r.grid == puzzle_dao.grid,
        r.history == puzzle_dao.history,
{
    PuzzleDTO {
        id: puzzle_dao.id,
        solution: puzzle_dao.solution,
        created_date: puzzle_dao.created_date,
        rows: puzzle_dao.rows as usize,
        cols: puzzle_dao.cols as usize,
        original_message: puzzle_dao.original_message,
        grid: puzzle_dao.grid,
        history: puzzle_dao.history,
    }
}

/// The stored form of a client puzzle; every field is carried over.
pub fn puzzle_dto_to_puzzle_dao(puzzle_dto: PuzzleDTO) -> (r: PuzzleDAO)
    ensures
        r.id == puzzle_dto.id,
        r.created_date == puzzle_dto.created_date,
        r.rows == puzzle_dto.rows,
        r.cols == puzzle_dto.cols,
        r.original_message == puzzle_dto.original_message,
        r.solution == puzzle_dto.solution,
        r.grid == puzzle_dto.grid,
        r.history == puzzle_dto.history,
{
    PuzzleDAO {
        rows: puzzle_dto.rows as u64,
        cols: puzzle_dto.cols as u64,
        solution: puzzle_dto.solution,
        original_message: puzzle_dto.original_message,
        grid: puzzle_dto.grid,
        history: puzzle_dto.history,
        id: puzzle_dto.id,
        created_date: puzzle_dto.created_date,
    }
}

/// The board held in a stored puzzle: its grid cut into rows of `cols`
/// characters, its history as the placed words.
pub fn puzzle_dao_to_board(puzzle: PuzzleDAO) -> (r: Result<Board, ShapeError>)
    ensures
        r == Err::<Board, ShapeError>(ShapeError::BadDimensions) <==> (puzzle.rows == 0
            || puzzle.cols == 0 || puzzle.rows * puzzle.cols > usize::MAX),
        r == Err::<Board, ShapeError>(ShapeError::BadGridLength) <==> (puzzle.rows > 0
            && puzzle.cols > 0 && puzzle.rows * puzzle.cols <= usize::MAX && puzzle.grid@.len()
            != puzzle.rows * puzzle.cols),
        r matches Ok(b) ==> {
            &&& b.wf()
            &&& b.num_rows() == puzzle.rows
            &&& b.num_cols() == puzzle.cols
            &&& b.message_view() == puzzle.original_message@
            &&& b.solution_view() == puzzle.solution@
            &&& b.cells() == chunk(puzzle.grid@, puzzle.cols as nat)
            &&& b.placed() == distinct_in_order(views(puzzle.history@))
        },
{
    if puzzle.rows > usize::MAX as u64 || puzzle.cols > usize::MAX as u64 {
        proof {
            if puzzle.rows > usize::MAX && puzzle.cols > 0 {
                assert(puzzle.rows * puzzle.cols >= puzzle.rows) by (nonlinear_arith)
                    requires
                        puzzle.cols > 0,
                ;
            }
            if puzzle.cols > usize::MAX && puzzle.rows > 0 {
                assert(puzzle.rows * puzzle.cols >= puzzle.cols) by (nonlinear_arith)
                    requires
                        puzzle.rows > 0,
                ;
            }
        }
        return Err(ShapeError::BadDimensions);
    }
    Board::restore(
        puzzle.rows as usize,
        puzzle.cols as usize,
        puzzle.original_message,
        puzzle.solution,
        puzzle.grid.as_str(),
        &puzzle.history,
    )
}

/// The board held in a client puzzle, as `puzzle_dao_to_board` reads it.
pub fn puzzle_dto_to_board(puzzle: PuzzleDTO) -> (r: Result<Board, ShapeError>)
    ensures
        r == Err::<Board, ShapeError>(ShapeError::BadDimensions) <==> (puzzle.rows == 0
            || puzzle.cols == 0 || puzzle.rows * puzzle.cols > usize::MAX),
        r == Err::<Board, ShapeError>(ShapeError::BadGridLength) <==> (puzzle.rows > 0
            && puzzle.cols > 0 && puzzle.rows * puzzle.cols <= usize::MAX && puzzle.grid@.len()
            != puzzle.rows * puzzle.cols),
        r matches Ok(b) ==> {
            &&& b.wf()
            &&& b.num_rows() == puzzle.rows
            &&& b.num_cols() == puzzle.cols
            &&& b.message_view() == puzzle.original_message@
            &&& b.solution_view() == puzzle.solution@
            &&& b.cells() == chunk(puzzle.grid@, puzzle.cols as nat)
            &&& b.placed() == distinct_in_order(views(puzzle.history@))
        },
{
    Board::restore(
        puzzle.rows,
        puzzle.cols,
        puzzle.original_message,
        puzzle.solution,
        puzzle.grid.as_str(),
        &puzzle.history,
    )
}

} // verus!
