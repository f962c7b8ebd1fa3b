use waratah::Crossword;
use waratah::Direction;
use waratah::Session;
use waratah::Vec2;
use waratah::Word;
use waratah::builder::build;
use waratah::session::Move;

fn word(answer: &str, clue: &str, direction: Direction, x: i64, y: i64) -> Word {
    Word {
        answer: answer.chars().collect(),
        clue: clue.to_string(),
        direction,
        position: Vec2 { x, y },
    }
}

fn cat_car_session() -> Session {
    Session::new(Crossword {
        words: vec![
            word("CAT", "feline", Direction::Across, 0, 0),
            word("CAR", "vehicle", Direction::Down, 0, 0),
        ],
    })
}

#[test]
fn try_new_accepts_an_ordinary_puzzle() {
    let cw = build(vec![("CAT".to_string(), "feline".to_string())]).unwrap();
    let s = Session::try_new(cw).unwrap();
    assert_eq!(s.selection(), None);
    assert_eq!(s.grid().width, 3);
}

#[test]
fn new_session_has_no_selection_and_no_entries() {
    let s = cat_car_session();
    assert_eq!(s.selection(), None);
    assert_eq!(s.last_direction(), Direction::Across);
    assert_eq!(s.entries().len(), 9);
    assert!(s.entries().iter().all(|e| e.is_none()));
}

#[test]
fn select_on_a_block_cell_is_a_no_op() {
    let mut s = cat_car_session();
    // cell 4 is a block in the 3x3 CAT/CAR grid
    assert_eq!(s.grid().cells[4], None);
    s.select(4);
    assert_eq!(s.selection(), None);
    // and from an existing selection it stays put too
    s.select(0);
    assert_eq!(s.selection(), Some(0));
    s.select(4);
    assert_eq!(s.selection(), Some(0));
}

#[test]
fn select_outside_the_grid_is_a_no_op() {
    let mut s = cat_car_session();
    s.select(100);
    assert_eq!(s.selection(), None);
}

#[test]
fn reselecting_the_same_cell_deselects() {
    let mut s = cat_car_session();
    s.select(1);
    assert_eq!(s.selection(), Some(1));
    s.select(1);
    assert_eq!(s.selection(), None);
}

#[test]
fn escape_clears_the_selection() {
    let mut s = cat_car_session();
    s.select(1);
    s.escape();
    assert_eq!(s.selection(), None);
}

#[test]
fn movement_is_rejected_at_the_right_edge_of_a_five_wide_grid() {
    let mut s = Session::new(build(vec![("ABCDE".to_string(), "rote".to_string())]).unwrap());
    assert_eq!(s.grid().width, 5);
    s.select(4);
    assert_eq!(s.selection(), Some(4));
    s.move_selection(Move::Right);
    assert_eq!(s.selection(), Some(4));
}

#[test]
fn movement_is_rejected_at_every_boundary() {
    let mut s = cat_car_session();
    s.select(0);
    s.move_selection(Move::Left);
    assert_eq!(s.selection(), Some(0));
    s.move_selection(Move::Up);
    assert_eq!(s.selection(), Some(0));
    s.select(0);
    assert_eq!(s.selection(), None);
    s.select(6);
    s.move_selection(Move::Down);
    assert_eq!(s.selection(), Some(6));
}

#[test]
fn movement_onto_a_block_is_rejected() {
    let mut s = cat_car_session();
    s.select(3);
    s.move_selection(Move::Right);
    assert_eq!(s.selection(), Some(3));
}

#[test]
fn accepted_movement_updates_selection_and_direction() {
    let mut s = cat_car_session();
    s.select(0);
    s.move_selection(Move::Right);
    assert_eq!(s.selection(), Some(1));
    assert_eq!(s.last_direction(), Direction::Across);
    s.move_selection(Move::Left);
    assert_eq!(s.selection(), Some(0));
    s.move_selection(Move::Down);
    assert_eq!(s.selection(), Some(3));
    assert_eq!(s.last_direction(), Direction::Down);
}

#[test]
fn typing_writes_uppercase_and_steps_forward() {
    let mut s = cat_car_session();
    s.select(0);
    s.type_letter('c');
    assert_eq!(s.entries()[0], Some('C'));
    // last direction starts across, so the cursor stepped right
    assert_eq!(s.selection(), Some(1));
}

#[test]
fn typing_with_no_selection_is_a_no_op() {
    let mut s = cat_car_session();
    s.type_letter('c');
    assert!(s.entries().iter().all(|e| e.is_none()));
    assert_eq!(s.selection(), None);
}

#[test]
fn typing_a_non_letter_is_a_no_op() {
    let mut s = cat_car_session();
    s.select(0);
    s.type_letter('3');
    assert_eq!(s.entries()[0], None);
    assert_eq!(s.selection(), Some(0));
}

#[test]
fn typing_at_a_word_end_stays_put() {
    let mut s = cat_car_session();
    s.select(2);
    s.type_letter('t');
    assert_eq!(s.entries()[2], Some('T'));
    assert_eq!(s.selection(), Some(2));
}

#[test]
fn type_then_backspace_restores_the_cell() {
    let mut s = Session::new(build(vec![("AB".to_string(), "first".to_string())]).unwrap());
    s.select(1);
    assert_eq!(s.entries()[1], None);
    s.type_letter('z');
    assert_eq!(s.entries()[1], Some('Z'));
    // the forward step was rejected at the edge, so the cursor stayed
    assert_eq!(s.selection(), Some(1));
    s.backspace();
    assert_eq!(s.entries()[1], None);
    assert!(s.entries().iter().all(|e| e.is_none()));
    // the backward step went through
    assert_eq!(s.selection(), Some(0));
}

#[test]
fn backspace_with_no_selection_is_a_no_op() {
    let mut s = cat_car_session();
    s.backspace();
    assert_eq!(s.selection(), None);
    assert!(s.entries().iter().all(|e| e.is_none()));
}

#[test]
fn highlighted_word_prefers_the_last_direction() {
    let mut s = cat_car_session();
    // with the initial across direction, the crossing cell highlights CAT
    s.select(0);
    assert_eq!(s.highlighted_word(), Some(0));
    s.select(0);
    // move down somewhere to flip the tracked direction
    s.select(3);
    s.move_selection(Move::Down);
    assert_eq!(s.last_direction(), Direction::Down);
    // back on the crossing cell, CAR is now preferred
    s.select(6);
    s.select(0);
    assert_eq!(s.highlighted_word(), Some(1));
}

#[test]
fn toggling_direction_flips_the_preference() {
    let mut s = cat_car_session();
    s.select(0);
    assert_eq!(s.last_direction(), Direction::Across);
    assert_eq!(s.highlighted_word(), Some(0));
    s.toggle_direction();
    assert_eq!(s.last_direction(), Direction::Down);
    assert_eq!(s.highlighted_word(), Some(1));
    s.toggle_direction();
    assert_eq!(s.last_direction(), Direction::Across);
}

#[test]
fn highlighted_word_falls_back_to_the_first_covering_word() {
    let mut s = cat_car_session();
    // cell 3 belongs to CAR only; the tracked direction is across, so
    // the preference fails and the first covering word is taken
    s.select(3);
    assert_eq!(s.highlighted_word(), Some(1));
    s.escape();
    assert_eq!(s.highlighted_word(), None);
}

#[test]
fn correctly_filled_single_word_puzzle_checks_correct() {
    let mut s = Session::new(build(vec![("CAT".to_string(), "feline".to_string())]).unwrap());
    s.select(0);
    s.type_letter('c');
    s.type_letter('a');
    s.type_letter('t');
    assert!(s.check_enabled());
    assert!(s.is_correct());
    // overwrite the last cell with a wrong letter: no longer correct
    s.type_letter('x');
    assert!(s.check_enabled());
    assert!(!s.is_correct());
}

#[test]
fn an_unentered_open_cell_is_never_correct() {
    let mut s = Session::new(build(vec![("CAT".to_string(), "feline".to_string())]).unwrap());
    s.select(0);
    s.type_letter('c');
    s.type_letter('a');
    // every entered cell is right, but one open cell is still empty
    assert!(!s.check_enabled());
    assert!(!s.is_correct());
}

#[test]
fn an_empty_session_is_not_correct() {
    let s = cat_car_session();
    assert!(!s.is_correct());
    assert!(!s.check_enabled());
}

#[test]
fn session_exposes_its_crossword_and_grid() {
    let s = cat_car_session();
    assert_eq!(s.crossword().words.len(), 2);
    assert_eq!(s.grid().width, 3);
    assert_eq!(s.grid().height, 3);
}
