use gomoku::board::{Board, BoardError, Move, Pos};
use gomoku::Player;

fn mv(x: i32, y: i32, p: Player) -> Move {
    Move { pos: Pos { x, y }, player: p }
}

#[test]
fn new_board_is_empty_and_a_moves() {
    let b = Board::new();
    assert_eq!(b.size, 16);
    assert_eq!(b.win_length, 5);
    assert_eq!(b.current_player, Player::A);
    assert_eq!(b.score, 0);
    assert_eq!(b.won, None);
    assert!(b.moves.is_empty());
    assert_eq!(b.player_a_one_left, 0);
    assert_eq!(b.player_b_one_left, 0);
}

#[test]
fn center_stone_scores_twenty() {
    let mut b = Board::new();
    let r = b.do_move(mv(8, 8, Player::A));
    assert_eq!(r, Ok(None));
    // five windows through the stone in each of the four orientations, each
    // holding one lone stone: 4 * 5 * 1^2
    assert_eq!(b.score, 20);
    assert_eq!(b.player_a_one_left, 0);
    assert_eq!(b.player_b_one_left, 0);
    assert_eq!(b.current_player, Player::B);
}

#[test]
fn do_undo_round_trip_restores_everything() {
    let mut b = Board::new();
    b.do_move(mv(8, 8, Player::A)).unwrap();
    b.do_move(mv(8, 9, Player::B)).unwrap();
    let grid = b.grid.clone();
    let score = b.score;
    let stack = b.score_stack.clone();
    let moves = b.moves.clone();
    let cur = b.current_player;
    let a1 = b.player_a_one_left;
    let b1 = b.player_b_one_left;
    let won = b.won;
    b.do_move(mv(10, 10, Player::A)).unwrap();
    b.undo_move();
    assert_eq!(b.grid, grid);
    assert_eq!(b.score, score);
    assert_eq!(b.score_stack, stack);
    assert_eq!(b.moves, moves);
    assert_eq!(b.current_player, cur);
    assert_eq!(b.player_a_one_left, a1);
    assert_eq!(b.player_b_one_left, b1);
    assert_eq!(b.won, won);
}

#[test]
fn undo_to_empty_board_clears_score() {
    let mut b = Board::new();
    b.do_move(mv(3, 4, Player::A)).unwrap();
    b.do_move(mv(4, 4, Player::B)).unwrap();
    b.undo_move();
    b.undo_move();
    assert_eq!(b.score, 0);
    assert_eq!(b.current_player, Player::A);
    assert!(b.moves.is_empty());
    assert_eq!(b.grid, Board::new().grid);
    // one more undo is a no-op
    b.undo_move();
    assert!(b.moves.is_empty());
}

#[test]
fn occupied_cell_is_rejected_unchanged() {
    let mut b = Board::new();
    b.do_move(mv(8, 8, Player::A)).unwrap();
    let grid = b.grid.clone();
    let score = b.score;
    let stack = b.score_stack.clone();
    let moves = b.moves.clone();
    let cur = b.current_player;
    let r = b.do_move(mv(8, 8, Player::B));
    assert_eq!(r, Err(BoardError::Occupied));
    assert_eq!(b.grid, grid);
    assert_eq!(b.score, score);
    assert_eq!(b.score_stack, stack);
    assert_eq!(b.moves, moves);
    assert_eq!(b.current_player, cur);
    assert_eq!(b.won, None);
}

#[test]
fn out_of_bounds_is_rejected() {
    let mut b = Board::new();
    assert_eq!(b.do_move(mv(16, 0, Player::A)), Err(BoardError::OutOfBounds));
    assert_eq!(b.do_move(mv(0, 16, Player::A)), Err(BoardError::OutOfBounds));
    assert_eq!(b.do_move(mv(-1, 3, Player::A)), Err(BoardError::OutOfBounds));
    assert_eq!(b.do_move(mv(3, -1, Player::A)), Err(BoardError::OutOfBounds));
    assert_eq!(b.score, 0);
    assert!(b.moves.is_empty());
}

#[test]
fn fifth_horizontal_stone_wins_and_blocks() {
    let mut b = Board::new();
    for x in 4..8 {
        assert_eq!(b.do_move(mv(x, 8, Player::A)), Ok(None));
    }
    assert_eq!(b.won, None);
    assert_eq!(b.do_move(mv(8, 8, Player::A)), Ok(Some(Player::A)));
    assert_eq!(b.won, Some(Player::A));
    assert!(b.check_win(Player::A));
    assert!(!b.check_win(Player::B));
    // no move is accepted after the win
    assert_eq!(b.do_move(mv(0, 0, Player::B)), Err(BoardError::AlreadyWon));
    // until the winning move is undone
    b.undo_move();
    assert_eq!(b.won, None);
    assert!(!b.check_win(Player::A));
    assert_eq!(b.do_move(mv(0, 0, Player::B)), Ok(None));
}

#[test]
fn vertical_and_diagonal_wins_detected() {
    let mut b = Board::new();
    for y in 2..6 {
        b.do_move(mv(3, y, Player::B)).unwrap();
    }
    assert_eq!(b.do_move(mv(3, 6, Player::B)), Ok(Some(Player::B)));

    let mut b2 = Board::new();
    for i in 0..4 {
        b2.do_move(mv(5 + i, 5 + i, Player::A)).unwrap();
    }
    assert_eq!(b2.do_move(mv(9, 9, Player::A)), Ok(Some(Player::A)));

    let mut b3 = Board::new();
    for i in 0..4 {
        b3.do_move(mv(9 - i, 5 + i, Player::A)).unwrap();
    }
    assert_eq!(b3.do_move(mv(5, 9, Player::A)), Ok(Some(Player::A)));
}

#[test]
fn edge_flush_win_detected() {
    let mut b = Board::new();
    for x in 0..4 {
        b.do_move(mv(x, 3, Player::A)).unwrap();
    }
    assert_eq!(b.do_move(mv(4, 3, Player::A)), Ok(Some(Player::A)));
    assert!(b.check_win(Player::A));
}

#[test]
fn middle_stone_of_a_line_completes_the_win() {
    let mut b = Board::new();
    b.do_move(mv(4, 8, Player::A)).unwrap();
    b.do_move(mv(5, 8, Player::A)).unwrap();
    b.do_move(mv(7, 8, Player::A)).unwrap();
    b.do_move(mv(8, 8, Player::A)).unwrap();
    assert_eq!(b.won, None);
    assert_eq!(b.do_move(mv(6, 8, Player::A)), Ok(Some(Player::A)));
}

#[test]
fn threat_counters_track_open_fours() {
    let mut b = Board::new();
    for x in 4..8 {
        b.do_move(mv(x, 8, Player::A)).unwrap();
    }
    // the four stones at x = 4..8 leave windows 3..8 and 4..9 one stone short
    assert_eq!(b.player_a_one_left, 2);
    assert_eq!(b.player_b_one_left, 0);
    b.undo_move();
    assert_eq!(b.player_a_one_left, 0);
}

#[test]
fn frontier_after_two_center_stones() {
    let mut b = Board::new();
    b.do_move(mv(8, 8, Player::A)).unwrap();
    b.do_move(mv(8, 9, Player::B)).unwrap();
    // far from every edge, the two lone stones' window sums cancel exactly:
    // each window holding only the A stone mirrors one holding only B
    assert_eq!(b.score, 0);
    let got = b.get_moves();
    let a = Player::A;
    let expected = vec![
        mv(7, 7, a),
        mv(8, 7, a),
        mv(9, 7, a),
        mv(7, 8, a),
        mv(9, 8, a),
        mv(7, 9, a),
        mv(9, 9, a),
        mv(7, 10, a),
        mv(8, 10, a),
        mv(9, 10, a),
    ];
    assert_eq!(got, expected);
}

#[test]
fn empty_board_has_no_frontier() {
    let b = Board::new();
    assert!(b.get_moves().is_empty());
}

#[test]
fn corner_stone_frontier_respects_edges() {
    let mut b = Board::new();
    b.do_move(mv(0, 0, Player::A)).unwrap();
    let got = b.get_moves();
    let p = Player::B;
    assert_eq!(got, vec![mv(1, 0, p), mv(0, 1, p), mv(1, 1, p)]);
}

#[test]
fn small_board_configuration() {
    let mut b = Board::with_config(5, 3);
    assert_eq!(b.size, 5);
    assert_eq!(b.win_length, 3);
    b.do_move(mv(1, 1, Player::A)).unwrap();
    b.do_move(mv(2, 1, Player::A)).unwrap();
    assert_eq!(b.won, None);
    assert_eq!(b.do_move(mv(3, 1, Player::A)), Ok(Some(Player::A)));
}

#[test]
fn incremental_score_matches_recomputation() {
    let mut b = Board::new();
    let seq = [
        (8, 8, Player::A),
        (8, 9, Player::B),
        (9, 8, Player::A),
        (7, 9, Player::B),
        (10, 8, Player::A),
        (0, 0, Player::B),
        (15, 15, Player::A),
    ];
    assert_eq!(b.recompute_score(), 0);
    for (x, y, p) in seq {
        b.do_move(mv(x, y, p)).unwrap();
        assert_eq!(b.recompute_score(), b.score);
    }
    while !b.moves.is_empty() {
        b.undo_move();
        assert_eq!(b.recompute_score(), b.score);
    }
}
