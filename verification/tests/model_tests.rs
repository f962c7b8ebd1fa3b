use waratah::Crossword;
use waratah::Direction;
use waratah::Vec2;
use waratah::Word;
use waratah::builder::build;
use waratah::grid::project;

fn word(answer: &str, clue: &str, direction: Direction, x: i64, y: i64) -> Word {
    Word {
        answer: answer.chars().collect(),
        clue: clue.to_string(),
        direction,
        position: Vec2 { x, y },
    }
}

fn cat_car() -> Crossword {
    // CAT across the origin, CAR down the first column: a legal crossing
    // at the shared C
    Crossword {
        words: vec![
            word("CAT", "feline", Direction::Across, 0, 0),
            word("CAR", "vehicle", Direction::Down, 0, 0),
        ],
    }
}

#[test]
fn contains_covers_exactly_the_span() {
    let w = word("CAT", "feline", Direction::Across, 0, 0);
    assert!(w.contains(Vec2 { x: 0, y: 0 }));
    assert!(w.contains(Vec2 { x: 2, y: 0 }));
    assert!(!w.contains(Vec2 { x: 3, y: 0 }));
    assert!(!w.contains(Vec2 { x: 0, y: 1 }));
    assert!(!w.contains(Vec2 { x: -1, y: 0 }));
}

#[test]
fn bounds_span_every_letter() {
    let cw = cat_car();
    let (lo, hi) = cw.bounds();
    assert_eq!(lo, Vec2 { x: 0, y: 0 });
    assert_eq!(hi, Vec2 { x: 2, y: 2 });
}

#[test]
fn size_is_bounds_difference_plus_one() {
    let cw = cat_car();
    let (lo, hi) = cw.bounds();
    let size = cw.size();
    assert_eq!(size.x, hi.x - lo.x + 1);
    assert_eq!(size.y, hi.y - lo.y + 1);
    assert_eq!(size, Vec2 { x: 3, y: 3 });
}

#[test]
fn size_of_a_built_crossword_matches_its_bounds() {
    let input = vec![
        ("STREAM".to_string(), "flow".to_string()),
        ("TEA".to_string(), "brew".to_string()),
        ("ARC".to_string(), "bend".to_string()),
    ];
    let cw = build(input).unwrap();
    let (lo, hi) = cw.bounds();
    let size = cw.size();
    assert_eq!(size.x, hi.x - lo.x + 1);
    assert_eq!(size.y, hi.y - lo.y + 1);
    // the first word is placed at the origin, so the minimum bound is at
    // or before the origin
    assert!(lo.x <= 0 && lo.y <= 0);
}

#[test]
fn to_letters_lists_every_letter_of_every_word() {
    let cw = cat_car();
    let letters = cw.to_letters();
    assert_eq!(letters.len(), 6);
    assert_eq!(letters[0].character, 'C');
    assert_eq!(letters[0].position, Vec2 { x: 0, y: 0 });
    assert_eq!(letters[1].character, 'A');
    assert_eq!(letters[1].position, Vec2 { x: 1, y: 0 });
    assert_eq!(letters[2].character, 'T');
    assert_eq!(letters[2].position, Vec2 { x: 2, y: 0 });
    assert_eq!(letters[3].character, 'C');
    assert_eq!(letters[3].position, Vec2 { x: 0, y: 0 });
    assert_eq!(letters[4].character, 'A');
    assert_eq!(letters[4].position, Vec2 { x: 0, y: 1 });
    assert_eq!(letters[5].character, 'R');
    assert_eq!(letters[5].position, Vec2 { x: 0, y: 2 });
}

#[test]
fn words_at_returns_the_covering_words_in_order() {
    let cw = cat_car();
    assert_eq!(cw.words_at(Vec2 { x: 0, y: 0 }), vec![0, 1]);
    assert_eq!(cw.words_at(Vec2 { x: 1, y: 0 }), vec![0]);
    assert_eq!(cw.words_at(Vec2 { x: 0, y: 2 }), vec![1]);
    assert_eq!(cw.words_at(Vec2 { x: 5, y: 5 }), Vec::<usize>::new());
}

#[test]
fn projected_grid_has_letters_blocks_and_ordinals() {
    let cw = cat_car();
    let g = project(&cw);
    assert_eq!(g.width, 3);
    assert_eq!(g.height, 3);
    assert_eq!(g.origin, Vec2 { x: 0, y: 0 });
    assert_eq!(g.cells.len(), 9);
    // row 0: C A T; the shared anchor gets ordinal 1
    assert_eq!(g.cells[0], Some(('C', Some(1))));
    assert_eq!(g.cells[1], Some(('A', None)));
    assert_eq!(g.cells[2], Some(('T', None)));
    // column 0 continues with A and R
    assert_eq!(g.cells[3], Some(('A', None)));
    assert_eq!(g.cells[6], Some(('R', None)));
    // everything else is a block
    assert_eq!(g.cells[4], None);
    assert_eq!(g.cells[5], None);
    assert_eq!(g.cells[7], None);
    assert_eq!(g.cells[8], None);
}

#[test]
fn ordinals_rank_distinct_anchors_by_row_then_column() {
    // CAT across the origin and TAR down from its T: two distinct
    // anchors, numbered left to right
    let cw = Crossword {
        words: vec![
            word("CAT", "feline", Direction::Across, 0, 0),
            word("TAR", "pitch", Direction::Down, 2, 0),
        ],
    };
    let g = project(&cw);
    assert_eq!(g.width, 3);
    assert_eq!(g.height, 3);
    assert_eq!(g.cells[0], Some(('C', Some(1))));
    assert_eq!(g.cells[2], Some(('T', Some(2))));
    assert_eq!(g.cells[5], Some(('A', None)));
    assert_eq!(g.cells[8], Some(('R', None)));
}

#[test]
fn projection_translates_by_the_minimum_bound() {
    // a crossing that reaches above the origin: CAR down anchored so its
    // A lands on CAT's A
    let cw = Crossword {
        words: vec![
            word("CAT", "feline", Direction::Across, 0, 0),
            word("CAR", "vehicle", Direction::Down, 1, -1),
        ],
    };
    let g = project(&cw);
    assert_eq!(g.origin, Vec2 { x: 0, y: -1 });
    assert_eq!(g.width, 3);
    assert_eq!(g.height, 3);
    // the grid is 0-indexed from its top-left corner: C of CAR at (1, -1)
    // is cell 1 of row 0
    assert_eq!(g.cells[1], Some(('C', Some(1))));
    // CAT's row is now row 1, its anchor ordinal is 2
    assert_eq!(g.cells[3], Some(('C', Some(2))));
    assert_eq!(g.cells[4], Some(('A', None)));
    assert_eq!(g.cells[5], Some(('T', None)));
    assert_eq!(g.cells[7], Some(('R', None)));
}
