use waratah::Direction;
use waratah::Vec2;
use waratah::builder::BuildError;
use waratah::builder::build;
use waratah::builder::try_build;

fn pairs(list: &[(&str, &str)]) -> Vec<(String, String)> {
    list.iter().map(|(a, c)| (a.to_string(), c.to_string())).collect()
}

#[test]
fn empty_input_is_rejected() {
    let r = build(Vec::new());
    assert!(matches!(r, Err(BuildError::EmptyInput)));
}

#[test]
fn non_alphabetic_answer_is_rejected() {
    let r = build(pairs(&[("C4T", "feline")]));
    assert!(matches!(r, Err(BuildError::InvalidAnswer)));
}

#[test]
fn empty_answer_is_rejected() {
    let r = build(pairs(&[("CAT", "feline"), ("", "nothing")]));
    assert!(matches!(r, Err(BuildError::InvalidAnswer)));
}

#[test]
fn answers_are_normalized_to_uppercase() {
    let cw = build(pairs(&[("cat", "feline")])).unwrap();
    assert_eq!(cw.words.len(), 1);
    assert_eq!(cw.words[0].answer, vec!['C', 'A', 'T']);
    assert_eq!(cw.words[0].clue, "feline".to_string());
}

#[test]
fn single_word_is_placed_across_origin() {
    let cw = build(pairs(&[("CAT", "feline")])).unwrap();
    assert_eq!(cw.words.len(), 1);
    assert_eq!(cw.words[0].position, Vec2 { x: 0, y: 0 });
    assert_eq!(cw.words[0].direction, Direction::Across);
}

#[test]
fn longest_word_is_placed_first_at_origin() {
    let cw = build(pairs(&[("ARC", "bend"), ("STREAM", "flow"), ("TEA", "brew")])).unwrap();
    assert_eq!(cw.words[0].answer, "STREAM".chars().collect::<Vec<char>>());
    assert_eq!(cw.words[0].position, Vec2 { x: 0, y: 0 });
    assert_eq!(cw.words[0].direction, Direction::Across);
    assert!(cw.words.len() <= 3);
}

#[test]
fn cat_car_cross_at_a_shared_letter() {
    let cw = build(pairs(&[("CAT", "feline"), ("CAR", "vehicle")])).unwrap();
    assert_eq!(cw.words.len(), 2);
    let first = &cw.words[0];
    let second = &cw.words[1];
    assert_eq!(first.answer, vec!['C', 'A', 'T']);
    assert_eq!(first.position, Vec2 { x: 0, y: 0 });
    assert_eq!(first.direction, Direction::Across);
    assert_eq!(second.answer, vec!['C', 'A', 'R']);
    assert_eq!(second.direction, Direction::Down);
    // the only matching letters are C-C and A-A, so the crossing is at
    // one of the two anchors those matches allow
    let at_c = second.position == Vec2 { x: 0, y: 0 };
    let at_a = second.position == Vec2 { x: 1, y: -1 };
    assert!(at_c || at_a);
    // crossing consistency: the shared cell carries the same character
    for (i, &ca) in first.answer.iter().enumerate() {
        for (j, &cb) in second.answer.iter().enumerate() {
            let pa = Vec2 { x: first.position.x + i as i64, y: first.position.y };
            let pb = Vec2 { x: second.position.x, y: second.position.y + j as i64 };
            if pa == pb {
                assert_eq!(ca, cb);
            }
        }
    }
}

#[test]
fn unplaceable_word_is_dropped_silently() {
    // no letter of XYZ occurs in CAT, so XYZ has no candidate placement
    let cw = build(pairs(&[("CAT", "feline"), ("XYZ", "letters")])).unwrap();
    assert_eq!(cw.words.len(), 1);
    assert_eq!(cw.words[0].answer, vec!['C', 'A', 'T']);
}

#[test]
fn try_build_accepts_an_ordinary_input() {
    let cw = try_build(pairs(&[("CAT", "feline")])).unwrap().unwrap();
    assert_eq!(cw.words.len(), 1);
    let r = try_build(Vec::new()).unwrap();
    assert!(matches!(r, Err(BuildError::EmptyInput)));
}

#[test]
fn duplicate_answers_are_permitted() {
    let cw = build(pairs(&[("CAT", "feline"), ("CAT", "copycat")])).unwrap();
    assert_eq!(cw.words.len(), 2);
    assert_eq!(cw.words[1].answer, vec!['C', 'A', 'T']);
    assert_eq!(cw.words[1].direction, Direction::Down);
}

#[test]
fn vectors_add_and_subtract_componentwise() {
    let a = Vec2 { x: 3, y: -2 };
    let b = Vec2 { x: 1, y: 5 };
    assert_eq!(a.add(b), Vec2 { x: 4, y: 3 });
    assert_eq!(a.sub(b), Vec2 { x: 2, y: -7 });
    assert_eq!(Vec2::default(), Vec2 { x: 0, y: 0 });
}

#[test]
fn rebuilding_from_identical_input_is_identical() {
    let input = &[
        ("PAPER", "news"),
        ("PENCIL", "writes"),
        ("ERASER", "undoes"),
        ("INK", "stains"),
        ("NOTE", "short"),
    ];
    let a = build(pairs(input)).unwrap();
    let b = build(pairs(input)).unwrap();
    assert_eq!(a.words.len(), b.words.len());
    for (wa, wb) in a.words.iter().zip(b.words.iter()) {
        assert_eq!(wa.answer, wb.answer);
        assert_eq!(wa.clue, wb.clue);
        assert_eq!(wa.direction, wb.direction);
        assert_eq!(wa.position, wb.position);
    }
}

#[test]
fn placed_count_never_exceeds_input_count() {
    let input = &[
        ("ALPHA", "first"),
        ("BETA", "second"),
        ("GAMMA", "third"),
        ("DELTA", "fourth"),
        ("OMEGA", "last"),
    ];
    let cw = build(pairs(input)).unwrap();
    assert!(1 <= cw.words.len() && cw.words.len() <= input.len());
}

#[test]
fn every_built_crossword_is_crossing_consistent() {
    let input = &[
        ("STREAM", "flow"),
        ("TEA", "brew"),
        ("ARC", "bend"),
        ("MAST", "pole"),
        ("EAR", "organ"),
    ];
    let cw = build(pairs(input)).unwrap();
    for a in cw.words.iter() {
        for b in cw.words.iter() {
            for (i, &ca) in a.answer.iter().enumerate() {
                for (j, &cb) in b.answer.iter().enumerate() {
                    let pa = match a.direction {
                        Direction::Across => Vec2 { x: a.position.x + i as i64, y: a.position.y },
                        Direction::Down => Vec2 { x: a.position.x, y: a.position.y + i as i64 },
                    };
                    let pb = match b.direction {
                        Direction::Across => Vec2 { x: b.position.x + j as i64, y: b.position.y },
                        Direction::Down => Vec2 { x: b.position.x, y: b.position.y + j as i64 },
                    };
                    if pa == pb {
                        assert_eq!(ca, cb);
                    }
                }
            }
        }
    }
}
