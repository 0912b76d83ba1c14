use game::{Board, Operation, Point, Request, INF};

fn corridor(n: usize, mover: usize, responder: usize) -> Board {
    Board::new(1, n, (0, mover), (0, responder), 0)
}

#[test]
fn sentinel_has_its_value() {
    assert_eq!(INF, 1_001_001_001_001_001_001);
}

#[test]
fn mover_without_a_move_scores_the_sentinel() {
    let b = Board::new(1, 2, (0, 0), (0, 1), 0);
    assert!(b.enumerate().is_empty());
    assert_eq!(b.calc_score(), -INF);
    let b = Board::new(1, 1, (0, 0), (0, 0), 0);
    assert_eq!(b.calc_score(), -INF);
}

#[test]
fn boxed_in_mover_scores_the_sentinel_whatever_the_rest() {
    let mut b = Board::new(3, 3, (0, 0), (1, 0), 0);
    // the mover goes right, the other player goes right below it
    b.operate(Operation::Right).unwrap();
    b.operate(Operation::Right).unwrap();
    // the mover stands on (0, 1) with trails left and below
    b.operate(Operation::Right).unwrap();
    b.operate(Operation::Right).unwrap();
    // the mover stands on (0, 2): the border above and right, trails left and below
    assert_eq!(b.mover(), (0, 2));
    assert!(b.enumerate().is_empty());
    assert_eq!(b.calc_score(), -INF);
}

#[test]
fn corridor_of_odd_length_gives_the_middle_to_the_mover() {
    // M . . . E : cell 1 is the mover's, cell 3 the other's, cell 2 is a tie
    assert_eq!(corridor(5, 0, 4).calc_score(), 3 - 2);
    // the same from the other end
    assert_eq!(corridor(5, 4, 0).calc_score(), 3 - 2);
    // M . E
    assert_eq!(corridor(3, 0, 2).calc_score(), 2 - 1);
    assert_eq!(corridor(7, 0, 6).calc_score(), 4 - 3);
}

#[test]
fn corridor_of_even_length_is_shared_evenly() {
    assert_eq!(corridor(6, 0, 5).calc_score(), 0);
    assert_eq!(corridor(4, 0, 3).calc_score(), 0);
    assert_eq!(corridor(4, 3, 0).calc_score(), 0);
}

#[test]
fn corridor_cells_go_to_the_nearer_player() {
    // . M . . . . E . : left of M one cell, between them four, right of E one
    assert_eq!(corridor(8, 1, 6).calc_score(), (1 + 1 + 2) - (1 + 2 + 1));
    // M . . . . E . . : between them two each, right of E two more
    assert_eq!(corridor(8, 0, 5).calc_score(), (1 + 2) - (1 + 2 + 2));
    // . . M . E : left of M two, the cell between is a tie
    assert_eq!(corridor(5, 2, 4).calc_score(), (1 + 2 + 1) - 1);
}

#[test]
fn players_block_each_other() {
    // M E . . : the mover cannot pass the other player, and cannot move at all
    assert_eq!(corridor(4, 0, 1).calc_score(), -INF);
    // . M E . . : each has its own side
    assert_eq!(corridor(5, 1, 2).calc_score(), 2 - 3);
}

#[test]
fn open_square_is_split_by_distance() {
    // 3 x 3, corners: the diagonal is tied and goes to the mover
    let b = Board::new(3, 3, (0, 0), (2, 2), 0);
    assert_eq!(b.calc_score(), (1 + 5) - (1 + 2));
    // 4 x 4, corners: four tied cells on the diagonal
    let b = Board::new(4, 4, (0, 0), (3, 3), 0);
    assert_eq!(b.calc_score(), (1 + 9) - (1 + 5));
}

#[test]
fn trails_are_walls() {
    // row 0: M . 1 . E with a wall between: the right part is out of the mover's reach
    let req = Request {
        size: Point { x: 5, y: 1 },
        player_pos: Point { x: 4, y: 0 },
        ai_pos: Point { x: 0, y: 0 },
        board: vec![1, -1, 0, -1, 0],
    };
    let b = Board::from_request(req).unwrap();
    assert_eq!(b.calc_score(), 2 - 2);
}

#[test]
fn unreachable_cells_count_for_nobody() {
    // M . # . . # . E
    let req = Request {
        size: Point { x: 8, y: 1 },
        player_pos: Point { x: 7, y: 0 },
        ai_pos: Point { x: 0, y: 0 },
        board: vec![1, -1, 0, -1, -1, 0, -1, 0],
    };
    let b = Board::from_request(req).unwrap();
    assert_eq!(b.calc_score(), 2 - 2);
}

#[test]
fn score_does_not_change_the_board() {
    let b = Board::new(4, 4, (0, 0), (3, 3), 0);
    let before = b.to_string();
    b.calc_score();
    assert_eq!(b.to_string(), before);
}

#[test]
fn sides_without_ties_score_the_negative() {
    // M . . E . . : no cell is equally far from both
    let one = corridor(6, 0, 3);
    let other = corridor(6, 3, 0);
    assert_eq!(one.calc_score(), 2 - 4);
    assert_eq!(other.calc_score(), 4 - 2);
    assert_eq!(one.calc_score(), -other.calc_score());
    let one = Board::new(3, 4, (0, 0), (2, 3), 0);
    let other = Board::new(3, 4, (2, 3), (0, 0), 1);
    assert_eq!(one.calc_score(), -other.calc_score());
}

#[test]
fn sides_with_ties_differ_by_twice_the_ties() {
    // M . . . E : one tied cell, which either mover counts as its own
    let one = corridor(5, 0, 4);
    let other = corridor(5, 4, 0);
    assert_eq!(one.calc_score() + other.calc_score(), 2);
    // 3 x 3 corners: three tied cells
    let one = Board::new(3, 3, (0, 0), (2, 2), 0);
    let other = Board::new(3, 3, (2, 2), (0, 0), 1);
    assert_eq!(one.calc_score() + other.calc_score(), 6);
}

#[test]
fn players_on_one_cell_leave_all_to_the_mover() {
    let req = Request {
        size: Point { x: 3, y: 1 },
        player_pos: Point { x: 1, y: 0 },
        ai_pos: Point { x: 1, y: 0 },
        board: vec![-1, 1, -1],
    };
    let b = Board::from_request(req).unwrap();
    assert_eq!(b.calc_score(), 3 - 1);
}
