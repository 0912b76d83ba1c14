use game::{next_op, next_pos, prev_op, Board, BoardError, Operation, Piece, Point, Request};

fn request(h: usize, w: usize, player: (usize, usize), ai: (usize, usize)) -> Request {
    let mut cells = vec![-1isize; h * w];
    cells[player.0 * w + player.1] = 0;
    cells[ai.0 * w + ai.1] = 1;
    Request {
        size: Point { x: w, y: h },
        player_pos: Point { x: player.1, y: player.0 },
        ai_pos: Point { x: ai.1, y: ai.0 },
        board: cells,
    }
}

fn snapshot(b: &Board) -> (String, (usize, usize), (usize, usize), usize, usize) {
    (b.to_string(), b.mover(), b.responder(), b.active(), b.moves_played())
}

#[test]
fn next_op_moves_one_cell() {
    assert_eq!(next_op((1, 1), Operation::Up, 3, 3), Some((0, 1)));
    assert_eq!(next_op((1, 1), Operation::Down, 3, 3), Some((2, 1)));
    assert_eq!(next_op((1, 1), Operation::Right, 3, 3), Some((1, 2)));
    assert_eq!(next_op((1, 1), Operation::Left, 3, 3), Some((1, 0)));
}

#[test]
fn next_op_stops_at_the_border() {
    assert_eq!(next_op((0, 0), Operation::Up, 3, 3), None);
    assert_eq!(next_op((0, 0), Operation::Left, 3, 3), None);
    assert_eq!(next_op((2, 2), Operation::Down, 3, 3), None);
    assert_eq!(next_op((2, 2), Operation::Right, 3, 3), None);
    assert_eq!(next_op((usize::MAX, 0), Operation::Down, 3, 3), None);
    assert_eq!(next_op((0, 5), Operation::Down, 3, 3), None);
}

#[test]
fn prev_op_goes_against_the_direction() {
    assert_eq!(prev_op((1, 1), Operation::Up, 3, 3), Some((2, 1)));
    assert_eq!(prev_op((1, 1), Operation::Down, 3, 3), Some((0, 1)));
    assert_eq!(prev_op((1, 1), Operation::Right, 3, 3), Some((1, 0)));
    assert_eq!(prev_op((1, 1), Operation::Left, 3, 3), Some((1, 2)));
    assert_eq!(prev_op((0, 0), Operation::Down, 3, 3), None);
}

#[test]
fn reversed_is_the_opposite() {
    assert_eq!(Operation::Up.reversed(), Operation::Down);
    assert_eq!(Operation::Down.reversed(), Operation::Up);
    assert_eq!(Operation::Right.reversed(), Operation::Left);
    assert_eq!(Operation::Left.reversed(), Operation::Right);
}

#[test]
fn next_pos_lists_down_up_right_left() {
    assert_eq!(next_pos((1, 1), 3, 3), vec![(2, 1), (0, 1), (1, 2), (1, 0)]);
    assert_eq!(next_pos((0, 0), 3, 3), vec![(1, 0), (0, 1)]);
    assert_eq!(next_pos((2, 2), 3, 3), vec![(1, 2), (2, 1)]);
    assert_eq!(next_pos((0, 0), 1, 1), vec![]);
}

#[test]
fn new_board_holds_both_players() {
    let b = Board::new(3, 4, (0, 1), (2, 3), 0);
    assert_eq!(b.height(), 3);
    assert_eq!(b.width(), 4);
    assert_eq!(b.mover(), (0, 1));
    assert_eq!(b.responder(), (2, 3));
    assert_eq!(b.active(), 0);
    assert_eq!(b.moves_played(), 0);
    assert_eq!(b.piece(0, 1), Piece::Player(0));
    assert_eq!(b.piece(2, 3), Piece::Player(1));
    assert_eq!(b.piece(1, 1), Piece::Empty);
}

#[test]
fn new_board_with_id_one() {
    let b = Board::new(2, 2, (0, 0), (1, 1), 1);
    assert_eq!(b.active(), 1);
    assert_eq!(b.piece(0, 0), Piece::Player(1));
    assert_eq!(b.piece(1, 1), Piece::Player(0));
}

#[test]
fn corner_mover_can_go_down_and_right() {
    let b = Board::new(3, 3, (0, 0), (2, 2), 0);
    assert_eq!(b.enumerate(), vec![Operation::Down, Operation::Right]);
}

#[test]
fn centre_mover_has_four_moves_in_order() {
    let b = Board::new(3, 3, (1, 1), (0, 0), 0);
    assert_eq!(
        b.enumerate(),
        vec![Operation::Up, Operation::Down, Operation::Right, Operation::Left]
    );
}

#[test]
fn every_listed_move_is_legal() {
    let mut b = Board::new(4, 4, (1, 1), (2, 2), 0);
    let line = [Operation::Right, Operation::Left, Operation::Up, Operation::Down];
    for op in line {
        for m in b.enumerate() {
            assert!(b.is_legal(m));
            let (i, j) = next_op(b.mover(), m, b.height(), b.width()).unwrap();
            assert_eq!(b.piece(i, j), Piece::Empty);
        }
        for m in [Operation::Up, Operation::Down, Operation::Right, Operation::Left] {
            assert_eq!(b.is_legal(m), b.enumerate().contains(&m));
        }
        if b.is_legal(op) {
            b.operate(op).unwrap();
        }
    }
}

#[test]
fn move_of_two_plies_ago_is_tried_first() {
    let mut b = Board::new(5, 5, (2, 1), (2, 3), 0);
    b.operate(Operation::Down).unwrap();
    b.operate(Operation::Down).unwrap();
    // the mover played Down two plies ago
    assert_eq!(b.mover(), (3, 1));
    assert_eq!(
        b.enumerate(),
        vec![Operation::Down, Operation::Right, Operation::Left]
    );
    b.operate(Operation::Right).unwrap();
    b.operate(Operation::Down).unwrap();
    // now Right was played two plies ago: it is tried first, and is blocked
    assert_eq!(b.mover(), (3, 2));
    assert_eq!(b.enumerate(), vec![Operation::Down, Operation::Up]);
}

#[test]
fn left_two_plies_ago_swaps_with_up() {
    let mut b = Board::new(5, 5, (2, 2), (0, 4), 0);
    b.operate(Operation::Left).unwrap();
    b.operate(Operation::Down).unwrap();
    assert_eq!(b.mover(), (2, 1));
    assert_eq!(
        b.enumerate(),
        vec![Operation::Left, Operation::Down, Operation::Up]
    );
}

#[test]
fn operate_stamps_and_swaps_roles() {
    let mut b = Board::new(3, 3, (0, 0), (2, 2), 0);
    assert_eq!(b.operate(Operation::Down), Ok(()));
    assert_eq!(b.piece(1, 0), Piece::Player(0));
    assert_eq!(b.mover(), (2, 2));
    assert_eq!(b.responder(), (1, 0));
    assert_eq!(b.active(), 1);
    assert_eq!(b.moves_played(), 1);
    assert_eq!(b.operate(Operation::Up), Ok(()));
    assert_eq!(b.piece(1, 2), Piece::Player(1));
    assert_eq!(b.mover(), (1, 0));
    assert_eq!(b.responder(), (1, 2));
    assert_eq!(b.active(), 0);
    assert_eq!(b.moves_played(), 2);
}

#[test]
fn operate_off_the_board_is_out_of_bounds() {
    let mut b = Board::new(3, 3, (0, 0), (2, 2), 0);
    let before = snapshot(&b);
    assert_eq!(b.operate(Operation::Up), Err(BoardError::OutOfBounds));
    assert_eq!(b.operate(Operation::Left), Err(BoardError::OutOfBounds));
    assert_eq!(snapshot(&b), before);
}

#[test]
fn operate_onto_a_trail_is_occupied() {
    let mut b = Board::new(3, 3, (1, 1), (1, 2), 0);
    let before = snapshot(&b);
    assert_eq!(b.operate(Operation::Right), Err(BoardError::Occupied));
    assert_eq!(snapshot(&b), before);
}

#[test]
fn rollback_without_a_move_is_empty_log() {
    let mut b = Board::new(3, 3, (0, 0), (2, 2), 0);
    let before = snapshot(&b);
    assert_eq!(b.rollback(), Err(BoardError::EmptyLog));
    assert_eq!(snapshot(&b), before);
}

#[test]
fn rollback_restores_the_board() {
    let mut b = Board::new(4, 5, (1, 1), (2, 3), 0);
    for op in b.enumerate() {
        let before = snapshot(&b);
        let mut cells = Vec::new();
        for i in 0..4 {
            for j in 0..5 {
                cells.push(b.piece(i, j));
            }
        }
        b.operate(op).unwrap();
        assert_ne!(snapshot(&b), before);
        assert_eq!(b.rollback(), Ok(()));
        assert_eq!(snapshot(&b), before);
        let mut after = Vec::new();
        for i in 0..4 {
            for j in 0..5 {
                after.push(b.piece(i, j));
            }
        }
        assert_eq!(after, cells);
    }
}

#[test]
fn rollback_undoes_moves_last_first() {
    let mut b = Board::new(4, 4, (0, 0), (3, 3), 0);
    let start = snapshot(&b);
    b.operate(Operation::Right).unwrap();
    let one = snapshot(&b);
    b.operate(Operation::Up).unwrap();
    let two = snapshot(&b);
    b.operate(Operation::Down).unwrap();
    assert_eq!(b.rollback(), Ok(()));
    assert_eq!(snapshot(&b), two);
    assert_eq!(b.rollback(), Ok(()));
    assert_eq!(snapshot(&b), one);
    assert_eq!(b.rollback(), Ok(()));
    assert_eq!(snapshot(&b), start);
    assert_eq!(b.rollback(), Err(BoardError::EmptyLog));
}

#[test]
fn clone_is_independent() {
    let b = Board::new(3, 3, (0, 0), (2, 2), 0);
    let mut c = b.clone();
    assert_eq!(snapshot(&c), snapshot(&b));
    c.operate(Operation::Down).unwrap();
    assert_eq!(b.piece(1, 0), Piece::Empty);
    assert_eq!(b.moves_played(), 0);
    assert_eq!(c.piece(1, 0), Piece::Player(0));
}

#[test]
fn board_is_drawn_row_by_row() {
    let mut b = Board::new(3, 3, (0, 0), (2, 2), 0);
    assert_eq!(b.to_string(), "M..\n...\n..E\n");
    b.operate(Operation::Down).unwrap();
    assert_eq!(b.to_string(), "0..\nE..\n..M\n");
    b.operate(Operation::Left).unwrap();
    assert_eq!(b.to_string(), "0..\nM..\n.E1\n");
}

#[test]
fn request_of_ten_by_ten_puts_the_machine_to_move() {
    let b = Board::from_request(request(10, 10, (4, 4), (6, 6))).unwrap();
    assert_eq!(b.mover(), (6, 6));
    assert_eq!(b.responder(), (4, 4));
    assert_eq!(b.active(), 1);
    assert_eq!(b.height(), 10);
    assert_eq!(b.width(), 10);
    assert_eq!(b.moves_played(), 0);
    assert_eq!(b.piece(4, 4), Piece::Player(0));
    assert_eq!(b.piece(6, 6), Piece::Player(1));
    assert_eq!(b.piece(0, 0), Piece::Empty);
}

#[test]
fn request_reads_x_as_column_and_y_as_row() {
    let mut cells = vec![-1isize; 6];
    cells[0 * 3 + 2] = 0;
    cells[1 * 3 + 0] = 1;
    cells[1 * 3 + 1] = 0;
    let req = Request {
        size: Point { x: 3, y: 2 },
        player_pos: Point { x: 2, y: 0 },
        ai_pos: Point { x: 0, y: 1 },
        board: cells,
    };
    let b = Board::from_request(req).unwrap();
    assert_eq!(b.height(), 2);
    assert_eq!(b.width(), 3);
    assert_eq!(b.mover(), (1, 0));
    assert_eq!(b.responder(), (0, 2));
    assert_eq!(b.piece(1, 1), Piece::Player(0));
    assert_eq!(b.to_string(), "..E\nM0.\n");
}

#[test]
fn request_with_an_unknown_code_is_invalid() {
    let mut req = request(3, 3, (0, 0), (2, 2));
    req.board[4] = 2;
    assert_eq!(Board::from_request(req).err(), Some(BoardError::InvalidRequest));
    let mut req = request(3, 3, (0, 0), (2, 2));
    req.board[8] = -2;
    assert_eq!(Board::from_request(req).err(), Some(BoardError::InvalidRequest));
}

#[test]
fn request_of_the_wrong_length_is_invalid() {
    let mut req = request(3, 3, (0, 0), (2, 2));
    req.board.pop();
    assert_eq!(Board::from_request(req).err(), Some(BoardError::InvalidRequest));
    let mut req = request(3, 3, (0, 0), (2, 2));
    req.board.push(-1);
    assert_eq!(Board::from_request(req).err(), Some(BoardError::InvalidRequest));
}

#[test]
fn request_with_a_player_off_the_board_is_invalid() {
    let mut req = request(3, 3, (0, 0), (2, 2));
    req.ai_pos = Point { x: 3, y: 0 };
    assert_eq!(Board::from_request(req).err(), Some(BoardError::InvalidRequest));
    let mut req = request(3, 3, (0, 0), (2, 2));
    req.player_pos = Point { x: 0, y: 3 };
    assert_eq!(Board::from_request(req).err(), Some(BoardError::InvalidRequest));
}

#[test]
fn request_with_too_large_a_size_is_invalid() {
    let req = Request {
        size: Point { x: usize::MAX, y: usize::MAX },
        player_pos: Point { x: 0, y: 0 },
        ai_pos: Point { x: 1, y: 1 },
        board: vec![-1; 4],
    };
    assert_eq!(Board::from_request(req).err(), Some(BoardError::InvalidRequest));
}

#[test]
fn request_need_not_mark_the_players() {
    let req = Request {
        size: Point { x: 2, y: 2 },
        player_pos: Point { x: 0, y: 0 },
        ai_pos: Point { x: 1, y: 1 },
        board: vec![-1; 4],
    };
    let b = Board::from_request(req).unwrap();
    assert_eq!(b.to_string(), "E.\n.M\n");
    assert_eq!(b.enumerate(), vec![Operation::Up, Operation::Left]);
}

#[test]
fn errors_have_their_texts() {
    assert_eq!(BoardError::OutOfBounds.message(), "Don't sink into the wall!");
    assert_eq!(BoardError::Occupied.message(), "Not Empty!");
    assert_eq!(BoardError::EmptyLog.message(), "No log!");
    assert_eq!(BoardError::InvalidRequest.message(), "Invalid request!");
}
