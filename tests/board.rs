use cruciwordo::board::Board;
use cruciwordo::direction::{all_directions, Direction};
use cruciwordo::grid::EMPTY;
use rand::rngs::StdRng;
use rand::SeedableRng;

fn dir(label: &str) -> Direction {
    for d in all_directions() {
        if d.label() == label {
            return d;
        }
    }
    panic!("no direction {}", label);
}

fn snapshot(b: &Board) -> Vec<Vec<char>> {
    let mut g = Vec::new();
    for r in 0..b.rows() {
        let mut line = Vec::new();
        for c in 0..b.cols() {
            line.push(b.cell(r, c));
        }
        g.push(line);
    }
    g
}

#[test]
fn new_board_starts_empty() {
    let b = Board::new(3, 4, "hi there!".to_string());
    assert_eq!(b.rows(), 3);
    assert_eq!(b.cols(), 4);
    assert_eq!(b.get_empty_cells(), 12);
    assert_eq!(b.message(), "hi there!");
    assert_eq!(b.solution(), "HITHERE");
    assert!(b.words().is_empty());
    for r in 0..3 {
        for c in 0..4 {
            assert_eq!(b.cell(r, c), EMPTY);
        }
    }
}

#[test]
fn solution_keeps_upper_cased_letters_only() {
    let b = Board::new(2, 2, "Go, team 2!".to_string());
    assert_eq!(b.solution(), "GOTEAM");
    let b = Board::new(2, 2, "çà va".to_string());
    assert_eq!(b.solution(), "ÇÀVA");
}

#[test]
fn go_message_gives_two_letter_solution() {
    let b = Board::new(5, 5, "GO".to_string());
    assert_eq!(b.solution(), "GO");
    assert_eq!(b.solution().chars().count(), 2);
    assert!(!b.is_filled());
}

#[test]
fn empty_solution_board_is_not_complete_while_a_cell_is_empty() {
    let b = Board::new(1, 1, String::new());
    assert_eq!(b.solution(), "");
    assert_eq!(b.get_empty_cells(), 1);
    assert!(!b.is_filled());
}

#[test]
fn complete_when_empty_cells_equal_solution_length() {
    let b = Board::new(1, 3, "abc".to_string());
    assert!(b.is_filled());
    let mut b = Board::new(1, 4, "x".to_string());
    assert!(!b.is_filled());
    b.place_word_on_board(0, 0, dir("E"), "CAT".to_string());
    assert_eq!(b.get_empty_cells(), 1);
    assert!(b.is_filled());
}

#[test]
fn word_fits_inside_and_not_outside() {
    let b = Board::new(3, 3, String::new());
    assert!(b.word_fits_board(0, 0, dir("E"), "CAT".to_string()));
    assert!(b.word_fits_board(2, 2, dir("NW"), "CAT".to_string()));
    assert!(!b.word_fits_board(0, 0, dir("E"), "CATS".to_string()));
    assert!(!b.word_fits_board(0, 0, dir("N"), "CAT".to_string()));
    assert!(!b.word_fits_board(1, 1, dir("SE"), "CAT".to_string()));
}

#[test]
fn word_fits_only_over_matching_letters() {
    let mut b = Board::new(3, 3, String::new());
    b.place_word_on_board(0, 0, dir("E"), "CAT".to_string());
    assert!(!b.word_fits_board(0, 0, dir("S"), "DOG".to_string()));
    assert!(b.word_fits_board(0, 0, dir("S"), "CUP".to_string()));
    assert!(b.word_fits_board(0, 2, dir("SW"), "TOP".to_string()));
}

#[test]
fn word_fits_respects_reserved_cells() {
    let b = Board::new(3, 3, "abcdefg".to_string());
    assert_eq!(b.solution().chars().count(), 7);
    assert!(b.word_fits_board(0, 0, dir("E"), "AT".to_string()));
    assert!(!b.word_fits_board(0, 0, dir("E"), "CAT".to_string()));
    let b = Board::new(3, 3, "abcdefgh".to_string());
    assert!(!b.word_fits_board(0, 0, dir("E"), "AT".to_string()));
}

#[test]
fn place_word_writes_its_letters_along_the_direction() {
    let mut b = Board::new(3, 3, String::new());
    b.place_word_on_board(2, 0, dir("NE"), "DOG".to_string());
    assert_eq!(b.cell(2, 0), 'D');
    assert_eq!(b.cell(1, 1), 'O');
    assert_eq!(b.cell(0, 2), 'G');
    assert_eq!(b.cell(0, 0), EMPTY);
    assert_eq!(b.get_empty_cells(), 6);
    assert_eq!(b.words(), vec!["DOG".to_string()]);
    b.place_word_on_board(2, 0, dir("NE"), "DOG".to_string());
    assert_eq!(b.words(), vec!["DOG".to_string()]);
}

#[test]
fn try_place_word_numbers_placements_from_one() {
    let mut rng = StdRng::seed_from_u64(11);
    let mut b = Board::new(6, 6, String::new());
    let p1 = b.try_place_word("CAT".to_string(), &mut rng).expect("fits on an empty board");
    assert_eq!(p1.step, 1);
    assert_eq!(p1.word, "CAT");
    let p2 = b.try_place_word("DOG".to_string(), &mut rng).expect("a short word fits");
    assert_eq!(p2.step, 2);
    assert_eq!(p2.word, "DOG");
    assert_eq!(b.words().len(), 2);
}

#[test]
fn try_place_word_records_letters_on_the_grid() {
    let mut rng = StdRng::seed_from_u64(5);
    let mut b = Board::new(5, 5, "GO".to_string());
    let p = b.try_place_word("TAB".to_string(), &mut rng).expect("fits on an empty board");
    assert_eq!(p.step, 1);
    let d = dir(p.direction);
    for (i, ch) in "TAB".chars().enumerate() {
        let r = p.row as isize + d.y_dir * i as isize;
        let c = p.col as isize + d.x_dir * i as isize;
        assert!(r >= 0 && r < 5 && c >= 0 && c < 5);
        assert_eq!(b.cell(r as usize, c as usize), ch);
    }
    assert_eq!(b.get_empty_cells(), 22);
}

#[test]
fn try_place_word_rejects_a_repeated_word() {
    let mut rng = StdRng::seed_from_u64(3);
    let mut b = Board::new(4, 4, String::new());
    assert!(b.try_place_word("SUN".to_string(), &mut rng).is_some());
    let before = snapshot(&b);
    assert!(b.try_place_word("SUN".to_string(), &mut rng).is_none());
    assert_eq!(snapshot(&b), before);
    assert_eq!(b.words(), vec!["SUN".to_string()]);
}

#[test]
fn try_place_word_rejects_empty_and_marker_words() {
    let mut rng = StdRng::seed_from_u64(3);
    let mut b = Board::new(4, 4, String::new());
    assert!(b.try_place_word(String::new(), &mut rng).is_none());
    assert!(b.try_place_word("A?B".to_string(), &mut rng).is_none());
    assert_eq!(b.get_empty_cells(), 16);
}

#[test]
fn five_letter_word_never_fits_a_three_by_three_board() {
    let mut rng = StdRng::seed_from_u64(9);
    let mut b = Board::new(3, 3, String::new());
    let before = snapshot(&b);
    for _ in 0..50 {
        assert!(b.try_place_word("HOUSE".to_string(), &mut rng).is_none());
        assert_eq!(snapshot(&b), before);
    }
    for d in all_directions() {
        for r in 0..3 {
            for c in 0..3 {
                assert!(!b.word_fits_board(r, c, d, "HOUSE".to_string()));
            }
        }
    }
}

#[test]
fn capacity_is_never_overdrawn() {
    let mut rng = StdRng::seed_from_u64(21);
    let mut b = Board::new(4, 4, "abcdefghijkl".to_string());
    for w in ["CAT", "DOG", "SUN", "TOP", "RAT", "BEE", "ANT"] {
        let _ = b.try_place_word(w.to_string(), &mut rng);
        assert!(b.get_empty_cells() >= 12);
    }
}

#[test]
fn random_cell_is_empty() {
    let mut rng = StdRng::seed_from_u64(1);
    let mut b = Board::new(2, 3, String::new());
    b.place_word_on_board(0, 0, dir("E"), "CAT".to_string());
    b.place_word_on_board(1, 0, dir("E"), "DO".to_string());
    for _ in 0..20 {
        let (r, c) = b.get_random_cell(&mut rng);
        assert_eq!((r, c), (1, 2));
    }
}

#[test]
fn random_direction_keeps_the_path_inside() {
    let mut rng = StdRng::seed_from_u64(4);
    let b = Board::new(3, 3, String::new());
    for _ in 0..20 {
        let d = b.get_random_direction_from_cell(0, 0, 3, &mut rng).expect("E, S and SE fit");
        assert!(["E", "S", "SE"].contains(&d.label()));
    }
    assert!(b.get_random_direction_from_cell(0, 0, 4, &mut rng).is_none());
    assert!(b.get_random_direction_from_cell(1, 1, 0, &mut rng).is_none());
}

#[test]
fn direction_fit_search_finds_the_only_direction() {
    let mut rng = StdRng::seed_from_u64(8);
    let mut b = Board::new(3, 3, String::new());
    b.place_word_on_board(0, 0, dir("E"), "CAT".to_string());
    b.place_word_on_board(2, 0, dir("E"), "ZZ".to_string());
    for _ in 0..10 {
        let d = b.word_fits_board_direction(2, 2, "PIT".to_string(), &mut rng);
        assert_eq!(d.expect("only N reaches the T").label(), "N");
    }
    assert!(b.word_fits_board_direction(2, 2, "CAT".to_string(), &mut rng).is_none());
}

#[test]
fn direction_table_has_eight_proper_directions() {
    let all = all_directions();
    assert_eq!(all.len(), 8);
    let labels: Vec<&str> = all.iter().map(|d| d.label()).collect();
    assert_eq!(labels, vec!["NW", "N", "NE", "W", "E", "SW", "S", "SE"]);
    for d in all {
        assert!(d.x_dir.abs() <= 1 && d.y_dir.abs() <= 1);
        assert!(d.x_dir != 0 || d.y_dir != 0);
    }
}

#[test]
fn place_word_refuses_what_is_not_accepted() {
    let mut b = Board::new(3, 3, String::new());
    assert!(!b.place_word_on_board(1, 1, dir("E"), "CAT".to_string()));
    assert_eq!(b.get_empty_cells(), 9);
    assert!(b.words().is_empty());
    assert!(b.place_word_on_board(0, 0, dir("E"), "CAT".to_string()));
    assert!(!b.place_word_on_board(0, 0, dir("S"), "DOG".to_string()));
    assert!(!b.place_word_on_board(1, 0, dir("E"), "CAT".to_string()));
    assert!(!b.place_word_on_board(1, 0, dir("E"), "A?B".to_string()));
    assert_eq!(b.get_empty_cells(), 6);
    let mut full = Board::new(1, 3, "ab".to_string());
    assert!(!full.place_word_on_board(0, 0, dir("E"), "ABC".to_string()));
    assert_eq!(full.get_empty_cells(), 3);
}

#[test]
fn first_empty_scans_forward_and_wraps() {
    let mut b = Board::new(2, 3, String::new());
    b.place_word_on_board(0, 0, dir("E"), "CAT".to_string());
    b.place_word_on_board(1, 1, dir("E"), "ON".to_string());
    assert_eq!(b.first_empty_from(0, 1), (1, 0));
    assert_eq!(b.first_empty_from(1, 2), (1, 0));
    assert_eq!(b.first_empty_from(1, 0), (1, 0));
}

#[test]
fn first_fitting_takes_the_first_of_the_order() {
    let b = Board::new(3, 3, String::new());
    let order = vec![dir("N"), dir("S"), dir("E"), dir("SE")];
    assert_eq!(b.first_fitting(0, 0, &"CAT".to_string(), &order).unwrap().label(), "S");
    let order = vec![dir("N"), dir("W"), dir("NW")];
    assert!(b.first_fitting(0, 0, &"CAT".to_string(), &order).is_none());
    let order = vec![dir("W"), dir("SE"), dir("E")];
    assert_eq!(b.first_inside(0, 0, 3, &order).unwrap().label(), "SE");
    assert!(b.first_inside(0, 0, 0, &order).is_none());
}

#[test]
fn place_with_fixes_the_placement() {
    let mut b = Board::new(3, 3, String::new());
    b.place_word_on_board(0, 0, dir("E"), "CAT".to_string());
    let order = vec![dir("W"), dir("S"), dir("E")];
    let p = b.place_with("ZOO".to_string(), 0, 1, &order).expect("the scan reaches (1, 0)");
    assert_eq!((p.row, p.col, p.direction, p.step), (1, 0, "E", 2));
    assert_eq!(b.cell(1, 0), 'Z');
    assert_eq!(b.cell(1, 2), 'O');
    let before = snapshot(&b);
    assert!(b.place_with("ZOO".to_string(), 0, 0, &order).is_none());
    assert!(b.place_with("HOUSE".to_string(), 0, 0, &order).is_none());
    assert_eq!(snapshot(&b), before);
}
