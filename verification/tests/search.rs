use game::{ai_response, Board, BoardError, Operation, Point, Request, DEPTH, INF};

/// Full-width negamax without pruning.
fn full_width(board: &mut Board, depth: usize) -> i64 {
    let moves = board.enumerate();
    if depth == 0 || moves.is_empty() {
        return board.calc_score();
    }
    let mut best = i64::MIN;
    for op in moves {
        board.operate(op).unwrap();
        let value = -full_width(board, depth - 1);
        board.rollback().unwrap();
        if value > best {
            best = value;
        }
    }
    best
}

/// The root choice by full-width negamax, the later move among equals.
fn full_width_choice(board: &Board, depth: usize) -> Option<Operation> {
    let mut best: Option<(i64, Operation)> = None;
    for op in board.enumerate() {
        let mut child = board.clone();
        child.operate(op).unwrap();
        let value = -full_width(&mut child, depth - 1);
        best = match best {
            Some((top, m)) if top > value => Some((top, m)),
            _ => Some((value, op)),
        };
    }
    best.map(|(_, op)| op)
}

fn boards() -> Vec<Board> {
    let mut played = Board::new(4, 4, (1, 1), (2, 2), 0);
    played.operate(Operation::Up).unwrap();
    played.operate(Operation::Right).unwrap();
    played.operate(Operation::Right).unwrap();
    vec![
        Board::new(3, 3, (0, 0), (2, 2), 0),
        Board::new(3, 3, (1, 1), (0, 0), 1),
        Board::new(4, 4, (0, 0), (3, 3), 0),
        Board::new(4, 5, (1, 2), (2, 2), 0),
        Board::new(1, 6, (0, 2), (0, 4), 0),
        Board::new(2, 2, (0, 0), (1, 1), 1),
        played,
    ]
}

#[test]
fn depth_has_its_value() {
    assert_eq!(DEPTH, 10);
}

#[test]
fn depth_zero_is_the_score() {
    for mut b in boards() {
        let score = b.calc_score();
        assert_eq!(b.min_max_sub(0, -INF, INF), score);
    }
}

#[test]
fn lost_position_is_the_sentinel_at_any_depth() {
    let mut b = Board::new(1, 2, (0, 0), (0, 1), 0);
    assert_eq!(b.min_max_sub(0, -INF, INF), -INF);
    assert_eq!(b.min_max_sub(5, -INF, INF), -INF);
}

#[test]
fn winning_move_is_worth_the_sentinel() {
    // M . E : after the mover's step the other player cannot move
    let mut b = Board::new(1, 3, (0, 0), (0, 2), 0);
    assert_eq!(b.min_max_sub(1, -INF, INF), INF);
    assert_eq!(b.branch_value(Operation::Right, 1), INF);
}

#[test]
fn one_ply_picks_the_best_score_after_the_move() {
    let mut b = Board::new(3, 3, (0, 0), (2, 2), 0);
    // after Down or Right the other player is to move on a symmetric board
    let mut after = b.clone();
    after.operate(Operation::Down).unwrap();
    let down = -after.calc_score();
    let mut after = b.clone();
    after.operate(Operation::Right).unwrap();
    let right = -after.calc_score();
    assert_eq!(b.min_max_sub(1, -INF, INF), down.max(right));
    assert_eq!(b.branch_value(Operation::Down, 1), down);
    assert_eq!(b.branch_value(Operation::Right, 1), right);
}

#[test]
fn full_window_search_equals_full_width_negamax() {
    for mut b in boards() {
        for depth in 0..6 {
            let expected = full_width(&mut b.clone(), depth);
            assert_eq!(b.min_max_sub(depth, -INF, INF), expected);
        }
    }
}

#[test]
fn search_leaves_the_board_as_it_was() {
    for mut b in boards() {
        let before = (b.to_string(), b.mover(), b.responder(), b.active(), b.moves_played());
        b.min_max_sub(4, -INF, INF);
        let after = (b.to_string(), b.mover(), b.responder(), b.active(), b.moves_played());
        assert_eq!(after, before);
    }
}

#[test]
fn narrow_window_bounds_the_value() {
    for mut b in boards() {
        for depth in 1..5 {
            let exact = full_width(&mut b.clone(), depth);
            for (alpha, beta) in [(-3, 3), (0, 1), (-1, 0), (2, 5), (-7, -2), (0, 0)] {
                let r = b.min_max_sub(depth, alpha, beta);
                if alpha <= exact && exact <= beta {
                    assert_eq!(r, exact);
                } else if exact <= alpha {
                    assert!(r <= alpha);
                } else {
                    assert!(r >= beta);
                }
            }
        }
    }
}

#[test]
fn chosen_move_equals_the_full_width_choice() {
    for b in boards() {
        for depth in 1..6 {
            assert_eq!(b.min_max(depth), full_width_choice(&b, depth));
        }
    }
}

#[test]
fn chosen_move_is_legal_and_best() {
    for b in boards() {
        for depth in 1..5 {
            let m = b.min_max(depth).unwrap();
            assert!(b.is_legal(m));
            for op in b.enumerate() {
                assert!(b.branch_value(op, depth) <= b.branch_value(m, depth));
            }
        }
    }
}

#[test]
fn branch_value_is_the_negated_value_of_the_child() {
    for b in boards() {
        for op in b.enumerate() {
            let mut child = b.clone();
            child.operate(op).unwrap();
            assert_eq!(b.branch_value(op, 3), -full_width(&mut child, 2));
        }
    }
}

#[test]
fn equal_moves_give_the_later_one() {
    // alone in the middle of a row both ways are worth the same
    let b = Board::new(1, 5, (0, 2), (0, 2), 0);
    assert_eq!(b.enumerate(), vec![Operation::Right, Operation::Left]);
    assert_eq!(
        b.branch_value(Operation::Right, 1),
        b.branch_value(Operation::Left, 1)
    );
    assert_eq!(b.min_max(1), Some(Operation::Left));
}

#[test]
fn search_takes_the_winning_move() {
    // . M . E with the mover able to shut the other player in
    let b = Board::new(1, 4, (0, 1), (0, 3), 0);
    assert_eq!(b.min_max(1), Some(Operation::Right));
    assert_eq!(b.min_max(3), Some(Operation::Right));
}

#[test]
fn lost_position_has_no_move() {
    let b = Board::new(1, 2, (0, 0), (0, 1), 0);
    assert_eq!(b.min_max(1), None);
    assert_eq!(b.min_max(DEPTH), None);
}

#[test]
fn answer_to_a_request_is_the_search_at_the_set_depth() {
    let mut cells = vec![-1isize; 16];
    cells[0] = 0;
    cells[15] = 1;
    let req = Request {
        size: Point { x: 4, y: 4 },
        player_pos: Point { x: 0, y: 0 },
        ai_pos: Point { x: 3, y: 3 },
        board: cells,
    };
    let board = Board::from_request(req.clone()).unwrap();
    let answer = ai_response(req).unwrap();
    assert_eq!(answer, board.min_max(DEPTH));
    assert_eq!(answer, full_width_choice(&board, DEPTH));
    assert!(board.is_legal(answer.unwrap()));
}

#[test]
fn answer_to_a_lost_position_is_no_move() {
    let req = Request {
        size: Point { x: 2, y: 1 },
        player_pos: Point { x: 0, y: 0 },
        ai_pos: Point { x: 1, y: 0 },
        board: vec![0, 1],
    };
    assert_eq!(ai_response(req), Ok(None));
}

#[test]
fn answer_to_a_malformed_request_is_an_error() {
    let req = Request {
        size: Point { x: 2, y: 2 },
        player_pos: Point { x: 0, y: 0 },
        ai_pos: Point { x: 1, y: 1 },
        board: vec![0, -1, 7, 1],
    };
    assert_eq!(ai_response(req), Err(BoardError::InvalidRequest));
}
