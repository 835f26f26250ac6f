use crossword_puzzle::error::{Error, GridError, WordError};
use crossword_puzzle::word::{Direction, Position, Segment, Word};
use crossword_puzzle::{Grid, PossibleWord, backtrack, eliminate_words, generate};
use std::collections::VecDeque;

fn rows(grid: &Grid) -> Vec<String> {
    grid.board.iter().map(|r| r.iter().collect::<String>()).collect()
}

fn placed(grid: &Grid) -> Vec<(String, Direction, Position)> {
    grid.words
        .iter()
        .map(|w| (w.segment.full_word_str(), w.direction, w.origin))
        .collect()
}

fn cell(grid: &Grid, x: i64, y: i64) -> Option<char> {
    if x < 0 || y < 0 {
        return None;
    }
    grid.board.get(y as usize).and_then(|r| r.get(x as usize)).copied()
}

fn step(d: Direction) -> (i64, i64) {
    match d {
        Direction::Horizontal => (1, 0),
        Direction::Vertical => (0, 1),
        Direction::NotSet => panic!("placed word without direction"),
    }
}

/// Every placed word reads its letters from its origin, and the cells just before and just
/// after it are blank or off the board.
fn assert_words_on_board(grid: &Grid) {
    for w in &grid.words {
        let letters = w.segment.full_word();
        let (dx, dy) = step(w.direction);
        let (ox, oy) = (w.origin.x as i64, w.origin.y as i64);
        for (i, ch) in letters.iter().enumerate() {
            let i = i as i64;
            assert_eq!(cell(grid, ox + dx * i, oy + dy * i), Some(*ch));
        }
        let n = letters.len() as i64;
        for c in [cell(grid, ox - dx, oy - dy), cell(grid, ox + dx * n, oy + dy * n)] {
            assert!(c.is_none() || c == Some(' '));
        }
    }
}

/// Every letter of a placed word that no perpendicular word shares has blank or missing cells
/// on both sides across the word.
fn assert_no_side_contact(grid: &Grid) {
    let mut covered: Vec<(i64, i64, Direction)> = Vec::new();
    for w in &grid.words {
        let (dx, dy) = step(w.direction);
        for i in 0..w.segment.full_word().len() as i64 {
            covered.push((w.origin.x as i64 + dx * i, w.origin.y as i64 + dy * i, w.direction));
        }
    }
    for w in &grid.words {
        let (dx, dy) = step(w.direction);
        for i in 0..w.segment.full_word().len() as i64 {
            let (x, y) = (w.origin.x as i64 + dx * i, w.origin.y as i64 + dy * i);
            let crossing = covered.iter().any(|&(cx, cy, d)| cx == x && cy == y && d != w.direction);
            if !crossing {
                for (sx, sy) in [(dy, dx), (-dy, -dx)] {
                    let c = cell(grid, x + sx, y + sy);
                    assert!(c.is_none() || c == Some(' '), "letter {} of a word touches a side", i);
                }
            }
        }
    }
}

#[test]
fn lowercase_input_is_rejected() {
    let r = generate(&["Lorem"]);
    assert!(matches!(r, Err(Error::WordError(WordError::LowercaseCharactersInSegment))));
}

#[test]
fn lowercase_anywhere_in_the_list_is_rejected() {
    let r = generate(&["CAT", "CAR", "doG"]);
    assert!(matches!(r, Err(Error::WordError(WordError::LowercaseCharactersInSegment))));
}

#[test]
fn single_word_is_pruned_and_grid_stays_blank() {
    let grid = generate(&["CAT"]).unwrap().unwrap();
    assert!(grid.words.is_empty());
    assert_eq!(rows(&grid), vec![" ".to_string()]);
}

#[test]
fn single_queued_word_fills_board_exactly() {
    let mut queue = VecDeque::new();
    queue.push_back(PossibleWord::new("CAT"));
    let grid = backtrack(Grid::new(), queue).unwrap().unwrap();
    assert_eq!(grid.words.len(), 1);
    assert_eq!(grid.words[0].segment.full_word_str(), "CAT");
    assert_eq!(rows(&grid), vec!["CAT".to_string()]);
    assert_words_on_board(&grid);
}

#[test]
fn two_words_sharing_letters_cross() {
    let grid = generate(&["CAT", "CAR"]).unwrap().unwrap();
    assert_eq!(
        placed(&grid),
        vec![
            ("CAT".to_string(), Direction::Horizontal, Position { x: 0, y: 0 }),
            ("CAR".to_string(), Direction::Vertical, Position { x: 0, y: 0 }),
        ]
    );
    assert_eq!(rows(&grid), vec!["CAT".to_string(), "A  ".to_string(), "R  ".to_string()]);
    assert_words_on_board(&grid);
    assert_no_side_contact(&grid);
}

#[test]
fn disjoint_words_are_pruned_to_an_empty_grid() {
    let queue = eliminate_words(&["CAT", "DOG"]);
    assert!(queue.is_empty());
    let grid = generate(&["CAT", "DOG"]).unwrap().unwrap();
    assert!(grid.words.is_empty());
    assert_eq!(rows(&grid), vec![" ".to_string()]);
}

#[test]
fn generation_is_repeatable() {
    let words = ["CROSS", "WORD", "ROW", "SWORD", "DOOR"];
    let a = generate(&words).unwrap().unwrap();
    let b = generate(&words).unwrap().unwrap();
    assert_eq!(a.board, b.board);
    assert_eq!(placed(&a), placed(&b));
}

#[test]
fn generated_words_read_back_from_the_board() {
    let grid = generate(&["CROSS", "WORD", "ROW", "SWORD", "DOOR"]).unwrap().unwrap();
    assert!(grid.words.len() >= 2);
    assert_words_on_board(&grid);
    assert_no_side_contact(&grid);
    let width = grid.board[0].len();
    assert!(grid.board.iter().all(|r| r.len() == width));
}

#[test]
fn pruning_drops_isolated_words_and_orders_longest_first() {
    let queue = eliminate_words(&["CAT", "DOG", "CARTS", "XYZ", "TO"]);
    let values: Vec<&str> = queue.iter().map(|p| p.value).collect();
    assert_eq!(values, vec!["CARTS", "CAT", "DOG", "TO"]);
    assert!(queue.iter().all(|p| p.remaining == 3));
}

#[test]
fn pruning_keeps_discovery_order_for_equal_lengths() {
    let queue = eliminate_words(&["AB", "CD", "BC"]);
    let values: Vec<&str> = queue.iter().map(|p| p.value).collect();
    assert_eq!(values, vec!["AB", "BC", "CD"]);
}

#[test]
fn pruning_ignores_a_repeated_word() {
    let queue = eliminate_words(&["CAT", "CAT"]);
    assert!(queue.is_empty());
}

#[test]
fn segment_rejects_whitespace_only() {
    assert!(matches!(Segment::new("", ' ', ""), Err(WordError::EmptyOrWhitespaceSegment)));
    assert!(matches!(Segment::new("", '\t', ""), Err(WordError::EmptyOrWhitespaceSegment)));
    assert!(Segment::new("A", ' ', "").is_ok());
}

#[test]
fn segment_rejects_lowercase() {
    assert!(matches!(Segment::new("Ab", 'C', ""), Err(WordError::LowercaseCharactersInSegment)));
    assert!(matches!(Segment::new("", 'c', ""), Err(WordError::LowercaseCharactersInSegment)));
    assert!(matches!(Segment::new("", 'C', "dE"), Err(WordError::LowercaseCharactersInSegment)));
    assert!(matches!(Segment::new("", 'é', ""), Err(WordError::LowercaseCharactersInSegment)));
}

#[test]
fn segment_full_word() {
    let s = Segment::new("APP", 'L', "E").unwrap();
    assert_eq!(s.full_word(), vec!['A', 'P', 'P', 'L', 'E']);
    assert_eq!(s.full_word_str(), "APPLE");
}

#[test]
fn word_builders_and_origin() {
    let w = Word::value("APP", 'L', "E").unwrap();
    assert_eq!(w.direction, Direction::NotSet);
    assert_eq!(w.position, Position { x: 0, y: 0 });
    let mut h = w.position(3, 2).direction(Direction::Horizontal);
    h.update_position();
    assert_eq!(h.origin, Position { x: 0, y: 2 });
    let mut v = w.position(4, 1).direction(Direction::Vertical);
    v.update_position();
    assert_eq!(v.origin, Position { x: 4, y: 0 });
    let mut unset = w.position(4, 1);
    unset.update_position();
    assert_eq!(unset.origin, Position { x: 0, y: 0 });
}

#[test]
fn word_positions_follow_direction() {
    let mut w = Word::value("", 'A', "BC").unwrap().position(1, 2).direction(Direction::Vertical);
    w.update_position();
    assert_eq!(
        w.positions(),
        vec![Position { x: 1, y: 2 }, Position { x: 1, y: 3 }, Position { x: 1, y: 4 }]
    );
    let unset = Word::value("", 'A', "BC").unwrap();
    assert!(unset.positions().is_empty());
}

#[test]
fn default_grid_is_one_blank_cell() {
    let grid = Grid::default();
    assert!(grid.words.is_empty());
    assert_eq!(rows(&grid), vec![" ".to_string()]);
}

#[test]
fn resize_prepends_and_moves_words() {
    let mut grid = Grid::new();
    grid.add_word(Word::value("", 'A', "B").unwrap().direction(Direction::Horizontal)).unwrap();
    grid.resize_grid(2, Direction::Horizontal, true).unwrap();
    assert_eq!(rows(&grid), vec!["  AB".to_string()]);
    assert_eq!(grid.words[0].position, Position { x: 2, y: 0 });
    grid.resize_grid(1, Direction::Vertical, false).unwrap();
    assert_eq!(rows(&grid), vec!["  AB".to_string(), "    ".to_string()]);
    assert!(matches!(
        grid.resize_grid(1, Direction::NotSet, true),
        Err(GridError::InvalidDirection(_))
    ));
    assert!(grid.resize_grid(0, Direction::NotSet, true).is_ok());
}

#[test]
fn add_word_grows_for_prefix_and_rejects_unset_direction() {
    let mut grid = Grid::new();
    let w = Word::value("AB", 'C', "D").unwrap().direction(Direction::Vertical);
    grid.add_word(w).unwrap();
    assert_eq!(
        rows(&grid),
        vec!["A".to_string(), "B".to_string(), "C".to_string(), "D".to_string()]
    );
    assert_eq!(grid.words[0].position, Position { x: 0, y: 2 });
    assert_eq!(grid.words[0].origin, Position { x: 0, y: 0 });
    let unset = Word::value("", 'X', "").unwrap();
    assert!(matches!(grid.add_word(unset), Err(GridError::InvalidDirection(_))));
    assert_eq!(grid.words.len(), 1);
}

#[test]
fn fill_word_rejects_unset_direction() {
    let mut grid = Grid::new();
    let w = Word::value("", 'X', "").unwrap();
    assert!(matches!(grid.fill_word(&w), Err(GridError::InvalidDirection(_))));
    assert_eq!(rows(&grid), vec![" ".to_string()]);
}

#[test]
fn neighbour_lookups() {
    let mut grid = Grid::new();
    grid.add_word(Word::value("", 'A', "BC").unwrap().direction(Direction::Horizontal)).unwrap();
    let p = Position { x: 1, y: 0 };
    assert_eq!(grid.get_char(p), Some('B'));
    assert_eq!(grid.get_char(Position { x: 5, y: 0 }), None);
    assert_eq!(grid.get_neighbor_at_offset(p, -1, 0), Some((Position { x: 0, y: 0 }, 'A')));
    assert_eq!(grid.get_neighbor_at_offset(p, 0, -1), None);
    let n = grid.get_neighbor(p);
    assert_eq!(n.left, Some((Position { x: 0, y: 0 }, 'A')));
    assert_eq!(n.right, Some((Position { x: 2, y: 0 }, 'C')));
    assert_eq!(n.up, None);
    assert_eq!(n.down, None);
    assert_eq!(grid.is_neighbor_cell_empty(p, Direction::Horizontal).unwrap(), true);
    assert_eq!(grid.is_neighbor_cell_empty(p, Direction::Vertical).unwrap(), false);
    assert!(grid.is_neighbor_cell_empty(p, Direction::NotSet).is_err());
    assert!(grid.is_char_empty_or_none(None));
    assert!(grid.is_char_empty_or_none(Some((p, ' '))));
    assert!(!grid.is_char_empty_or_none(Some((p, 'B'))));
}

#[test]
fn next_position_and_coordinate() {
    let grid = Grid::new();
    let p = Position { x: 3, y: 5 };
    assert_eq!(grid.get_next_pos(p, Direction::Horizontal, -1).unwrap(), Position { x: 2, y: 5 });
    assert_eq!(grid.get_next_pos(p, Direction::Vertical, 1).unwrap(), Position { x: 3, y: 6 });
    assert!(grid.get_next_pos(p, Direction::NotSet, 1).is_err());
    let corner = Position { x: 0, y: 0 };
    assert_eq!(
        grid.get_next_pos(corner, Direction::Horizontal, -1).unwrap(),
        Position { x: usize::MAX, y: 0 }
    );
    assert_eq!(grid.get_coord_val(p, Direction::Horizontal).unwrap(), 3);
    assert_eq!(grid.get_coord_val(p, Direction::Vertical).unwrap(), 5);
    assert!(grid.get_coord_val(p, Direction::NotSet).is_err());
}

#[test]
fn placement_validation() {
    let mut grid = Grid::new();
    grid.add_word(Word::value("", 'C', "AT").unwrap().direction(Direction::Horizontal)).unwrap();
    // CAR down from the C of CAT fits.
    let car = Word::value("", 'C', "AR").unwrap().position(0, 0).direction(Direction::Vertical);
    assert_eq!(grid.is_valid_placement(&car).unwrap(), true);
    // A horizontal word from the A of CAT runs into its T.
    let bad = Word::value("", 'A', "X").unwrap().position(1, 0).direction(Direction::Horizontal);
    assert_eq!(grid.is_valid_placement(&bad).unwrap(), false);
    let unset = Word::value("", 'A', "").unwrap();
    assert!(grid.is_valid_placement(&unset).is_err());
    let chars = vec!['A', 'T'];
    let w = Word::value("", 'C', "").unwrap().direction(Direction::Horizontal);
    assert_eq!(grid.check_segment_placement(&w, Position { x: 0, y: 0 }, &chars, 1).unwrap(), true);
    let wrong = vec!['A', 'X'];
    assert_eq!(grid.check_segment_placement(&w, Position { x: 0, y: 0 }, &wrong, 1).unwrap(), false);
}

#[test]
fn placements_on_an_empty_grid() {
    let grid = Grid::new();
    let found = grid.find_valid_placements("AB").unwrap();
    let summary: Vec<(String, char, Direction)> = found
        .iter()
        .map(|w| (w.segment.prefix.to_string(), w.segment.crossed, w.direction))
        .collect();
    assert_eq!(
        summary,
        vec![
            ("".to_string(), 'A', Direction::Horizontal),
            ("".to_string(), 'A', Direction::Vertical),
            ("A".to_string(), 'B', Direction::Horizontal),
            ("A".to_string(), 'B', Direction::Vertical),
        ]
    );
    let initial = grid.handle_initial_placements("", 'Z', "").unwrap();
    assert_eq!(initial.len(), 2);
    assert!(matches!(
        grid.handle_initial_placements("", ' ', ""),
        Err(GridError::WordError(WordError::EmptyOrWhitespaceSegment))
    ));
}

#[test]
fn placements_cross_existing_words() {
    let mut grid = Grid::new();
    grid.add_word(Word::value("", 'C', "AT").unwrap().direction(Direction::Horizontal)).unwrap();
    let found = grid.find_valid_placements_for_segment("", 'C', "AR", Direction::Vertical).unwrap();
    assert_eq!(found.len(), 1);
    assert_eq!(found[0].position, Position { x: 0, y: 0 });
    let none = grid.find_valid_placements_for_segment("", 'C', "AR", Direction::Horizontal).unwrap();
    assert!(none.is_empty());
    assert!(grid.find_valid_placements_for_segment("", 'C', "", Direction::NotSet).is_err());
    assert!(matches!(
        grid.find_valid_placements_for_segment("", 'c', "", Direction::Vertical),
        Ok(ref v) if v.is_empty()
    ));
    assert!(matches!(
        grid.find_valid_placements_for_segment("x", 'C', "", Direction::Vertical),
        Err(GridError::WordError(WordError::LowercaseCharactersInSegment))
    ));
    let all = grid.find_valid_placements("TAR").unwrap();
    assert!(all.iter().all(|w| w.direction == Direction::Vertical));
    assert_eq!(all.len(), 2);
}

#[test]
fn search_reports_no_solution_on_a_blank_grid() {
    let mut queue = VecDeque::new();
    queue.push_back(PossibleWord { value: "", remaining: 1 });
    queue.push_back(PossibleWord::new("A"));
    assert!(backtrack(Grid::new(), queue).unwrap().is_none());
}

#[test]
fn search_falls_back_to_the_partial_grid() {
    let mut queue = VecDeque::new();
    queue.push_back(PossibleWord { value: "A", remaining: 1 });
    queue.push_back(PossibleWord { value: "B", remaining: 1 });
    let mut grid = Grid::new();
    grid.add_word(Word::value("", 'Q', "").unwrap().direction(Direction::Horizontal)).unwrap();
    let r = backtrack(grid, queue).unwrap().unwrap();
    assert_eq!(r.words.len(), 1);
}

#[test]
fn search_error_from_a_malformed_word() {
    let mut queue = VecDeque::new();
    queue.push_back(PossibleWord::new(" "));
    assert!(matches!(
        backtrack(Grid::new(), queue),
        Err(Error::GridError(GridError::WordError(WordError::EmptyOrWhitespaceSegment)))
    ));
}

#[test]
fn error_messages() {
    assert_eq!(
        WordError::LowercaseCharactersInSegment.message(),
        "Segment cannot contain lowercase characters."
    );
    assert_eq!(
        GridError::InvalidDirection("x".to_string()).message(),
        "Invalid direction: x"
    );
    assert_eq!(
        Error::GridError(GridError::WordError(WordError::EmptyOrWhitespaceSegment)).message(),
        "Grid error: Word error: Segment cannot be empty or contain only whitespace."
    );
    assert_eq!(Error::Custom("y".to_string()).message(), "Application error: y");
    let e: Error = WordError::EmptyOrWhitespaceSegment.into();
    assert!(matches!(e, Error::WordError(WordError::EmptyOrWhitespaceSegment)));
    let g: GridError = WordError::LowercaseCharactersInSegment.into();
    assert!(matches!(g, GridError::WordError(WordError::LowercaseCharactersInSegment)));
    let e2: Error = g.into();
    assert!(matches!(e2, Error::GridError(_)));
}

#[test]
fn a_later_word_can_run_over_an_earlier_words_end() {
    // AEE is placed first; AEED later runs down the same column and fills the cell after it.
    let grid = generate(&["BBDC", "DCCB", "AEE", "AEED", "EEBA"]).unwrap().unwrap();
    assert_eq!(
        rows(&grid),
        vec![
            "BBDC".to_string(),
            "  C ".to_string(),
            "  C ".to_string(),
            "EEBA".to_string(),
            "   E".to_string(),
            "   E".to_string(),
            "   D".to_string(),
        ]
    );
    let aee = grid.words.iter().find(|w| w.segment.full_word_str() == "AEE").unwrap();
    assert_eq!(aee.direction, Direction::Vertical);
    assert_eq!(grid.board[aee.origin.y + 3][aee.origin.x], 'D');
}

#[test]
fn a_blank_inside_a_word_can_be_written_over() {
    // The blank of "A B" reads as an empty cell, so AQB later fills it with Q.
    let grid = generate(&["A B", "XAY", "AQB"]).unwrap().unwrap();
    assert_eq!(rows(&grid), vec!["X  ".to_string(), "AQB".to_string(), "Y  ".to_string()]);
    assert_eq!(grid.words.len(), 3);
}
