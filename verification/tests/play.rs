use game::{cui, key_move, Board, BoardError, Operation, Piece, Step, Turn, CONSOLE_DEPTH};

#[test]
fn keys_stand_for_moves() {
    assert_eq!(key_move('w'), Some(Operation::Up));
    assert_eq!(key_move('s'), Some(Operation::Down));
    assert_eq!(key_move('d'), Some(Operation::Right));
    assert_eq!(key_move('a'), Some(Operation::Left));
    assert_eq!(key_move('x'), None);
    assert_eq!(key_move('W'), None);
    assert_eq!(key_move('\n'), None);
}

#[test]
fn console_depth_has_its_value() {
    assert_eq!(CONSOLE_DEPTH, 15);
}

#[test]
fn start_puts_the_mover_first_with_id_zero() {
    let b = Board::start(7, 9, (1, 1), (5, 7)).unwrap();
    assert_eq!(b.height(), 7);
    assert_eq!(b.width(), 9);
    assert_eq!(b.mover(), (1, 1));
    assert_eq!(b.responder(), (5, 7));
    assert_eq!(b.active(), 0);
    assert_eq!(b.piece(1, 1), Piece::Player(0));
    assert_eq!(b.piece(5, 7), Piece::Player(1));
    assert_eq!(b.moves_played(), 0);
}

#[test]
fn start_on_one_cell_is_refused() {
    assert!(Board::start(7, 7, (3, 3), (3, 3)).is_none());
}

#[test]
fn start_off_the_grid_is_refused() {
    assert!(Board::start(7, 7, (7, 3), (3, 3)).is_none());
    assert!(Board::start(7, 7, (3, 3), (3, 7)).is_none());
    assert!(Board::start(0, 0, (0, 0), (0, 1)).is_none());
}

#[test]
fn start_on_too_large_a_grid_is_refused() {
    assert!(Board::start(usize::MAX, usize::MAX, (0, 0), (1, 1)).is_none());
}

#[test]
fn random_start_is_in_range() {
    let mut some = 0;
    for _ in 0..200 {
        if let Some(b) = Board::random_start() {
            some += 1;
            let (h, w) = (b.height(), b.width());
            assert!((7..=15).contains(&h));
            assert!((7..=15).contains(&w));
            let (me, opp) = (b.mover(), b.responder());
            assert!(1 <= me.0 && me.0 <= h - 2 && 1 <= me.1 && me.1 <= w - 2);
            assert!(1 <= opp.0 && opp.0 <= h - 2 && 1 <= opp.1 && opp.1 <= w - 2);
            assert_ne!(me, opp);
            assert_eq!(b.active(), 0);
            assert_eq!(b.moves_played(), 0);
            assert_eq!(b.piece(me.0, me.1), Piece::Player(0));
            assert_eq!(b.piece(opp.0, opp.1), Piece::Player(1));
        }
    }
    assert!(some > 0);
}

#[test]
fn random_start_varies() {
    let mut seen = Vec::new();
    for _ in 0..200 {
        if let Some(b) = Board::random_start() {
            let key = (b.height(), b.width(), b.mover(), b.responder());
            if !seen.contains(&key) {
                seen.push(key);
            }
        }
    }
    assert!(seen.len() > 1);
}

#[test]
fn turns_alternate_until_the_game_is_over() {
    let mut b = Board::new(1, 4, (0, 0), (0, 3), 0);
    assert_eq!(b.turn(), Turn::Human);
    b.operate(Operation::Right).unwrap();
    assert_eq!(b.turn(), Turn::Machine);
    b.operate(Operation::Left).unwrap();
    // M M E E: nobody can move, the side to move has lost
    assert_eq!(b.turn(), Turn::Over);
    assert_eq!(b.active(), 0);
}

#[test]
fn console_asks_the_human_for_a_key() {
    let mut b = Board::new(3, 3, (0, 0), (2, 2), 0);
    let before = b.to_string();
    assert_eq!(cui(&mut b, None), Step::Ask);
    assert_eq!(b.to_string(), before);
    assert_eq!(b.moves_played(), 0);
}

#[test]
fn console_rejects_an_unknown_key() {
    let mut b = Board::new(3, 3, (0, 0), (2, 2), 0);
    assert_eq!(cui(&mut b, Some('q')), Step::Unknown);
    assert_eq!(b.moves_played(), 0);
}

#[test]
fn console_refuses_an_illegal_move() {
    let mut b = Board::new(3, 3, (0, 0), (0, 1), 0);
    assert_eq!(cui(&mut b, Some('w')), Step::Refused(BoardError::OutOfBounds));
    assert_eq!(cui(&mut b, Some('d')), Step::Refused(BoardError::Occupied));
    assert_eq!(b.moves_played(), 0);
    assert_eq!(b.turn(), Turn::Human);
}

#[test]
fn console_plays_the_humans_move() {
    let mut b = Board::new(3, 3, (0, 0), (2, 2), 0);
    assert_eq!(cui(&mut b, Some('s')), Step::Moved(Operation::Down));
    assert_eq!(b.responder(), (1, 0));
    assert_eq!(b.mover(), (2, 2));
    assert_eq!(b.turn(), Turn::Machine);
}

#[test]
fn console_plays_the_machines_move_without_a_key() {
    // H . . . A with the machine to move
    let mut b = Board::new(1, 5, (0, 4), (0, 0), 1);
    let expected = b.min_max(CONSOLE_DEPTH).unwrap();
    assert_eq!(cui(&mut b, None), Step::Moved(Operation::Left));
    assert_eq!(expected, Operation::Left);
    assert_eq!(b.responder(), (0, 3));
    assert_eq!(b.turn(), Turn::Human);
    // a key that came too early changes nothing of the machine's move
    let mut b = Board::new(1, 5, (0, 4), (0, 0), 1);
    assert_eq!(cui(&mut b, Some('w')), Step::Moved(Operation::Left));
}

#[test]
fn console_ends_the_game_for_the_side_that_cannot_move() {
    let mut b = Board::new(1, 4, (0, 0), (0, 3), 0);
    assert_eq!(cui(&mut b, Some('d')), Step::Moved(Operation::Right));
    assert_eq!(cui(&mut b, None), Step::Moved(Operation::Left));
    assert_eq!(cui(&mut b, None), Step::Lost(0));
    assert_eq!(cui(&mut b, Some('d')), Step::Lost(0));
    assert_eq!(b.moves_played(), 2);
}

#[test]
fn console_game_runs_to_its_end() {
    let mut b = Board::new(2, 3, (0, 0), (1, 2), 0);
    let mut steps = 0;
    let loser = loop {
        steps += 1;
        assert!(steps < 50);
        match cui(&mut b, Some('d')) {
            Step::Lost(n) => break n,
            Step::Refused(_) => match cui(&mut b, Some('s')) {
                Step::Moved(_) | Step::Lost(_) => {}
                _ => match cui(&mut b, Some('a')) {
                    Step::Moved(_) | Step::Lost(_) => {}
                    _ => {
                        cui(&mut b, Some('w'));
                    }
                },
            },
            _ => {}
        }
    };
    assert_eq!(loser, b.active());
    assert!(b.enumerate().is_empty());
}
