use sudokusolver::board::{Board, Position};
use sudokusolver::parser::{parse, ParseError};

const PUZZLE: &str = "5 3 0 0 7 0 0 0 0 6 0 0 1 9 5 0 0 0 0 9 8 0 0 0 0 6 0 8 0 0 0 6 0 0 0 3 4 0 0 8 0 3 0 0 1 7 0 0 0 2 0 0 0 6 0 6 0 0 0 0 2 8 0 0 0 0 4 1 9 0 0 5 0 0 0 0 8 0 0 7 9";

const EMPTY: &str = "0 0 0 0 0 0 0 0 0 0 0 0 0 0 0 0 0 0 0 0 0 0 0 0 0 0 0 0 0 0 0 0 0 0 0 0 0 0 0 0 0 0 0 0 0 0 0 0 0 0 0 0 0 0 0 0 0 0 0 0 0 0 0 0 0 0 0 0 0 0 0 0 0 0 0 0 0 0 0 0 0";

fn group_has_each_digit_once(board: &Board, group: &Vec<Position>) {
    for digit in 1..=9u8 {
        let mut count = 0;
        for pos in group.iter() {
            if board.at(pos) == Some(digit) {
                count += 1;
            }
        }
        assert_eq!(count, 1);
    }
}

#[test]
fn all_positions_canonical() {
    let ps = Position::all();
    assert_eq!(ps.len(), 81);
    assert_eq!(ps[0], Position { x: 1, y: 1 });
    assert_eq!(ps[1], Position { x: 2, y: 1 });
    assert_eq!(ps[8], Position { x: 9, y: 1 });
    assert_eq!(ps[9], Position { x: 1, y: 2 });
    assert_eq!(ps[80], Position { x: 9, y: 9 });
    for i in 0..81 {
        for j in 0..81 {
            if i != j {
                assert_ne!(ps[i], ps[j]);
            }
        }
    }
}

#[test]
fn groups_partition_the_grid() {
    let families = [Position::rows(), Position::cols(), Position::boxs()];
    for groups in families.iter() {
        assert_eq!(groups.len(), 9);
        for group in groups.iter() {
            assert_eq!(group.len(), 9);
        }
        for p in Position::all() {
            let mut count = 0;
            for group in groups.iter() {
                for q in group.iter() {
                    if *q == p {
                        count += 1;
                    }
                }
            }
            assert_eq!(count, 1);
        }
    }
}

#[test]
fn box_membership_arithmetic() {
    let boxs = Position::boxs();
    for p in Position::all() {
        let g = ((p.x - 1) / 3 + (p.y - 1) / 3 * 3) as usize;
        assert!(boxs[g].contains(&p));
    }
}

#[test]
fn next_walks_canonical_order() {
    let ps = Position::all();
    let mut cur = Position { x: 1, y: 1 };
    let mut seen = vec![cur];
    for _ in 0..80 {
        cur = cur.next().expect("successor expected before the last cell");
        seen.push(cur);
    }
    assert_eq!(seen.len(), 81);
    for i in 0..81 {
        assert_eq!(seen[i], ps[i]);
    }
    assert_eq!(cur, Position { x: 9, y: 9 });
    assert!(cur.next().is_none());
    assert_eq!(
        Position { x: 9, y: 4 }.next(),
        Some(Position { x: 1, y: 5 })
    );
}

#[test]
fn validate_is_idempotent() {
    let board = parse(PUZZLE.as_bytes()).unwrap();
    let before: Vec<Option<u8>> = Position::all().iter().map(|p| board.at(p)).collect();
    let first = board.validate();
    let second = board.validate();
    assert_eq!(first, second);
    assert!(first);
    let after: Vec<Option<u8>> = Position::all().iter().map(|p| board.at(p)).collect();
    assert_eq!(before, after);
}

#[test]
fn with_round_trips_and_keeps_parent() {
    let board = parse(PUZZLE.as_bytes()).unwrap();
    let pos = Position { x: 3, y: 1 };
    assert_eq!(board.at(&pos), None);
    let child = board.with(pos, 4).expect("4 fits at column 3 of row 1");
    assert_eq!(child.at(&pos), Some(4));
    assert_eq!(board.at(&pos), None);
    for q in Position::all() {
        if q != pos {
            assert_eq!(child.at(&q), board.at(&q));
        }
    }
}

#[test]
fn rejected_assignment_would_be_locally_invalid() {
    let board = parse(PUZZLE.as_bytes()).unwrap();
    let pos = Position { x: 3, y: 1 };
    assert!(board.with(pos, 5).is_none());
    let forced = "5 3 5 0 7 0 0 0 0 6 0 0 1 9 5 0 0 0 0 9 8 0 0 0 0 6 0 8 0 0 0 6 0 0 0 3 4 0 0 8 0 3 0 0 1 7 0 0 0 2 0 0 0 6 0 6 0 0 0 0 2 8 0 0 0 0 4 1 9 0 0 5 0 0 0 0 8 0 0 7 9";
    let manual = parse(forced.as_bytes()).unwrap();
    assert!(!manual.validate_at(pos));
}

#[test]
fn line_dups_counts_repeats() {
    let one_row_dups = "5 5 3 3 5 0 0 0 0 0 0 0 0 0 0 0 0 0 0 0 0 0 0 0 0 0 0 0 0 0 0 0 0 0 0 0 0 0 0 0 0 0 0 0 0 0 0 0 0 0 0 0 0 0 0 0 0 0 0 0 0 0 0 0 0 0 0 0 0 0 0 0 0 0 0 0 0 0 0 0 0";
    let board = parse(one_row_dups.as_bytes()).unwrap();
    let rows = Position::rows();
    assert_eq!(board.line_dups(&rows[0]), 3);
    assert_eq!(board.line_dups(&rows[1]), 0);
}

#[test]
fn classic_puzzle_solves_to_valid_completion() {
    let board = parse(PUZZLE.as_bytes()).unwrap();
    assert!(board.validate());
    assert!(!board.solved());
    let solved = board.solve().expect("the classic puzzle has a solution");
    assert!(solved.solved());
    assert!(solved.validate());
    for p in Position::all() {
        if let Some(v) = board.at(&p) {
            assert_eq!(solved.at(&p), Some(v));
        }
    }
    for groups in [Position::rows(), Position::cols(), Position::boxs()].iter() {
        for group in groups.iter() {
            group_has_each_digit_once(&solved, group);
        }
    }
}

#[test]
fn conflicting_givens_have_no_solution() {
    let twin_fives = "5 3 0 0 7 0 0 5 0 6 0 0 1 9 5 0 0 0 0 9 8 0 0 0 0 6 0 8 0 0 0 6 0 0 0 3 4 0 0 8 0 3 0 0 1 7 0 0 0 2 0 0 0 6 0 6 0 0 0 0 2 8 0 0 0 0 4 1 9 0 0 5 0 0 0 0 8 0 0 7 9";
    let board = parse(twin_fives.as_bytes()).unwrap();
    assert!(!board.validate());
    assert!(board.solve().is_none());
}

#[test]
fn blank_board_solves() {
    let board = parse(EMPTY.as_bytes()).unwrap();
    let solved = board.solve().expect("a blank board has completions");
    assert!(solved.solved());
    assert!(solved.validate());
    for groups in [Position::rows(), Position::cols(), Position::boxs()].iter() {
        for group in groups.iter() {
            group_has_each_digit_once(&solved, group);
        }
    }
}

#[test]
fn solved_complete_but_invalid_board_yields_none() {
    let all_ones = "1 1 1 1 1 1 1 1 1 1 1 1 1 1 1 1 1 1 1 1 1 1 1 1 1 1 1 1 1 1 1 1 1 1 1 1 1 1 1 1 1 1 1 1 1 1 1 1 1 1 1 1 1 1 1 1 1 1 1 1 1 1 1 1 1 1 1 1 1 1 1 1 1 1 1 1 1 1 1 1 1";
    let board = parse(all_ones.as_bytes()).unwrap();
    assert!(board.solved());
    assert!(!board.validate());
    assert!(board.solve().is_none());
}

#[test]
fn solved_valid_board_returned_as_is() {
    let board = parse(PUZZLE.as_bytes()).unwrap();
    let solved = board.solve().unwrap();
    let again = solved.solve().expect("a solved valid board solves to itself");
    for p in Position::all() {
        assert_eq!(again.at(&p), solved.at(&p));
    }
}

#[test]
fn wrong_token_count_is_rejected() {
    let eighty = "0 ".repeat(79) + "0";
    assert!(matches!(
        parse(eighty.as_bytes()),
        Err(ParseError::WrongCount { got: 80 })
    ));
    let eighty_two = "0 ".repeat(81) + "0";
    assert!(matches!(
        parse(eighty_two.as_bytes()),
        Err(ParseError::WrongCount { got: 82 })
    ));
    assert!(matches!(parse(b""), Err(ParseError::WrongCount { got: 0 })));
}

#[test]
fn non_digit_input_is_rejected() {
    assert!(matches!(
        parse(b"5 3 x 0 7"),
        Err(ParseError::WrongCount { got: 2 })
    ));
    assert!(matches!(
        parse(b"hello"),
        Err(ParseError::WrongCount { got: 0 })
    ));
}

#[test]
fn trailing_bytes_after_a_full_run_are_ignored() {
    let with_newline = format!("{}\n", PUZZLE);
    let board = parse(with_newline.as_bytes()).unwrap();
    assert_eq!(board.at(&Position { x: 1, y: 1 }), Some(5));
    assert_eq!(board.at(&Position { x: 9, y: 9 }), Some(9));
}

#[test]
fn board_new_reads_back_and_later_pairs_override() {
    let mut pairs: Vec<(Position, Option<u8>)> = Vec::new();
    for p in Position::all() {
        pairs.push((p, None));
    }
    pairs.push((Position { x: 4, y: 7 }, Some(6)));
    pairs.push((Position { x: 4, y: 7 }, Some(2)));
    let board = Board::new(pairs);
    assert_eq!(board.at(&Position { x: 4, y: 7 }), Some(2));
    assert_eq!(board.at(&Position { x: 1, y: 1 }), None);
    assert!(!board.solved());
    assert!(board.validate());
}

#[test]
fn pretty_renders_nine_rows() {
    let board = parse(PUZZLE.as_bytes()).unwrap();
    let text = board.pretty();
    let expected = "5 3 0 0 7 0 0 0 0 \n6 0 0 1 9 5 0 0 0 \n0 9 8 0 0 0 0 6 0 \n8 0 0 0 6 0 0 0 3 \n4 0 0 8 0 3 0 0 1 \n7 0 0 0 2 0 0 0 6 \n0 6 0 0 0 0 2 8 0 \n0 0 0 4 1 9 0 0 5 \n0 0 0 0 8 0 0 7 9 \n";
    assert_eq!(text, expected);
}
