use cruciwordo::board::{Board, ShapeError};
use cruciwordo::direction::all_directions;
use cruciwordo::layout::{grid_to_string, string_to_grid};
use cruciwordo::board::Placement;
use cruciwordo::puzzle::{
    board_to_puzzle_dao, generate_random_id, generation_to_puzzle_dao, placement_line,
    puzzle_dao_from_board, puzzle_dao_from_generation, puzzle_dao_to_board,
    puzzle_dao_to_puzzle_dto, puzzle_dto_to_board, puzzle_dto_to_puzzle_dao, PuzzleDAO,
    PuzzleDTO, PUZZLE_ID_LENGTH,
};
use cruciwordo::text::{decimal_string, keep_letters, solution_of, split_lines};
use rand::rngs::StdRng;
use rand::SeedableRng;

fn sample_dao() -> PuzzleDAO {
    PuzzleDAO {
        id: "abc123".to_string(),
        created_date: "2024-01-02T03:04:05+00:00".to_string(),
        rows: 2,
        cols: 3,
        original_message: "hi".to_string(),
        solution: "HI".to_string(),
        grid: "CAT?O?".to_string(),
        history: vec!["CAT".to_string(), "AO".to_string(), "CAT".to_string()],
    }
}

#[test]
fn grid_flattens_row_after_row_and_chunks_back() {
    let grid = vec![vec!['A', 'B', 'C'], vec!['D', '?', 'F']];
    let s = grid_to_string(&grid);
    assert_eq!(s, "ABCD?F");
    assert_eq!(s.chars().count(), 6);
    assert_eq!(string_to_grid(&s, 3), grid);
    let tall = vec![vec!['x'], vec!['y'], vec!['z']];
    assert_eq!(string_to_grid(&grid_to_string(&tall), 1), tall);
}

#[test]
fn chunking_drops_a_short_tail() {
    assert_eq!(string_to_grid("ABCDE", 2), vec![vec!['A', 'B'], vec!['C', 'D']]);
    assert_eq!(string_to_grid("", 4), Vec::<Vec<char>>::new());
}

#[test]
fn stored_board_comes_back_the_same() {
    let mut b = Board::new(2, 3, "hi".to_string());
    let east = all_directions()[4];
    assert_eq!(east.label(), "E");
    b.place_word_on_board(0, 0, east, "CAT".to_string());
    let dao = puzzle_dao_from_board(&b, "id1".to_string(), "now".to_string());
    assert_eq!(dao.grid, "CAT???");
    assert_eq!(dao.rows, 2);
    assert_eq!(dao.cols, 3);
    assert_eq!(dao.solution, "HI");
    assert_eq!(dao.original_message, "hi");
    assert_eq!(dao.history, vec!["CAT".to_string()]);
    assert_eq!(dao.id, "id1");
    assert_eq!(dao.created_date, "now");
    let back = puzzle_dao_to_board(dao).ok().expect("a well-shaped record");
    assert_eq!(back.rows(), 2);
    assert_eq!(back.cols(), 3);
    assert_eq!(back.grid_string(), "CAT???");
    assert_eq!(back.words(), vec!["CAT".to_string()]);
    assert_eq!(back.get_empty_cells(), 3);
}

#[test]
fn restored_board_reads_rows_of_cols_cells() {
    let b = puzzle_dao_to_board(sample_dao()).ok().expect("a well-shaped record");
    assert_eq!(b.cell(0, 0), 'C');
    assert_eq!(b.cell(0, 2), 'T');
    assert_eq!(b.cell(1, 1), 'O');
    assert_eq!(b.cell(1, 2), '?');
    assert_eq!(b.words(), vec!["CAT".to_string(), "AO".to_string()]);
    assert_eq!(b.solution(), "HI");
    assert_eq!(b.message(), "hi");
}

#[test]
fn malformed_records_are_refused() {
    let mut dao = sample_dao();
    dao.rows = 0;
    assert!(matches!(puzzle_dao_to_board(dao), Err(ShapeError::BadDimensions)));
    let mut dao = sample_dao();
    dao.grid = "CAT".to_string();
    assert!(matches!(puzzle_dao_to_board(dao), Err(ShapeError::BadGridLength)));
    let mut dao = sample_dao();
    dao.cols = u64::MAX;
    assert!(matches!(puzzle_dao_to_board(dao), Err(ShapeError::BadDimensions)));
}

#[test]
fn oversized_client_record_is_refused() {
    let dto = PuzzleDTO {
        id: "x".to_string(),
        created_date: "t".to_string(),
        rows: usize::MAX,
        cols: 2,
        original_message: String::new(),
        solution: String::new(),
        grid: "??".to_string(),
        history: Vec::new(),
    };
    assert!(matches!(puzzle_dto_to_board(dto), Err(ShapeError::BadDimensions)));
}

#[test]
fn dao_and_dto_carry_every_field() {
    let dto = puzzle_dao_to_puzzle_dto(sample_dao());
    assert_eq!(dto.id, "abc123");
    assert_eq!(dto.created_date, "2024-01-02T03:04:05+00:00");
    assert_eq!(dto.rows, 2);
    assert_eq!(dto.cols, 3);
    assert_eq!(dto.original_message, "hi");
    assert_eq!(dto.solution, "HI");
    assert_eq!(dto.grid, "CAT?O?");
    assert_eq!(dto.history.len(), 3);
    let dao = puzzle_dto_to_puzzle_dao(dto);
    assert_eq!(dao.rows, 2u64);
    assert_eq!(dao.cols, 3u64);
    assert_eq!(dao.grid, "CAT?O?");
    assert_eq!(dao.id, "abc123");
}

#[test]
fn dto_gives_the_same_board() {
    let dto = PuzzleDTO {
        id: "x".to_string(),
        created_date: "t".to_string(),
        rows: 1,
        cols: 2,
        original_message: "a b".to_string(),
        solution: "AB".to_string(),
        grid: "??".to_string(),
        history: Vec::new(),
    };
    let b = puzzle_dto_to_board(dto).ok().expect("a well-shaped record");
    assert!(b.is_filled());
    assert_eq!(b.get_empty_cells(), 2);
}

#[test]
fn new_record_gets_a_fresh_safe_id() {
    let b = Board::new(2, 2, "ab".to_string());
    let dao = board_to_puzzle_dao(b);
    assert_eq!(dao.id.chars().count(), PUZZLE_ID_LENGTH);
    assert!(dao.id.chars().all(|c| c == '_' || c == '-' || c.is_ascii_alphanumeric()));
    assert!(!dao.created_date.is_empty());
    assert_eq!(dao.grid, "????");
    assert_eq!(dao.solution, "AB");
}

#[test]
fn random_id_uses_the_id_alphabet() {
    let mut rng = StdRng::seed_from_u64(3);
    let id = generate_random_id(16, &mut rng);
    assert_eq!(id.chars().count(), 16);
    assert!(id.chars().all(|c| c == '_' || c.is_ascii_alphanumeric()));
    assert_eq!(generate_random_id(0, &mut rng), "");
}

#[test]
fn letters_are_kept_in_order() {
    assert_eq!(keep_letters("a1 b-c!"), "abc");
    assert_eq!(solution_of("Hello, World 42"), "HELLOWORLD");
    assert_eq!(solution_of(""), "");
}

#[test]
fn numbers_are_written_in_decimal() {
    assert_eq!(decimal_string(0), "0");
    assert_eq!(decimal_string(7), "7");
    assert_eq!(decimal_string(10), "10");
    assert_eq!(decimal_string(40213), "40213");
    assert_eq!(decimal_string(usize::MAX), usize::MAX.to_string());
}

#[test]
fn placement_lines_list_step_word_cell_and_direction() {
    let p = Placement { direction: "SE", row: 12, col: 0, word: "CAT".to_string(), step: 3 };
    assert_eq!(placement_line(&p), "3|CAT|12|0|SE");
}

#[test]
fn generated_record_keeps_one_line_per_placement() {
    let mut b = Board::new(2, 3, "hi".to_string());
    let east = all_directions()[4];
    b.place_word_on_board(0, 0, east, "CAT".to_string());
    let placements = vec![Placement { direction: "E", row: 0, col: 0, word: "CAT".to_string(), step: 1 }];
    let dao = puzzle_dao_from_generation(&b, &placements, "id9".to_string(), "then".to_string());
    assert_eq!(dao.history, vec!["1|CAT|0|0|E".to_string()]);
    assert_eq!(dao.grid, "CAT???");
    assert_eq!(dao.id, "id9");
    assert_eq!(dao.created_date, "then");
    let fresh = generation_to_puzzle_dao(&b, &placements);
    assert_eq!(fresh.id.chars().count(), PUZZLE_ID_LENGTH);
    assert_eq!(fresh.history, vec!["1|CAT|0|0|E".to_string()]);
}

#[test]
fn lines_split_like_std() {
    assert_eq!(split_lines("cat\ndog\r\nsun"), vec!["cat", "dog", "sun"]);
    assert_eq!(split_lines("a\n\nb\n"), vec!["a", "", "b"]);
    assert!(split_lines("").is_empty());
    for text in ["cat\ndog\r\nsun", "a\n\nb\n", "", "\n", "x\r", "\r\n\r\n", "one", "a\rb\n"] {
        let expected: Vec<String> = text.lines().map(String::from).collect();
        assert_eq!(split_lines(text), expected);
    }
}
