use gomoku::board::{Board, Move, Pos};
use gomoku::minmax::MinMax;
use gomoku::score::{Score, ScoreThing};
use gomoku::{BasicScore, BetterBasicScore, Player};

fn mv(x: i32, y: i32, p: Player) -> Move {
    Move { pos: Pos { x, y }, player: p }
}

fn engine(depth: u32, culling: usize) -> MinMax<BetterBasicScore, BasicScore> {
    MinMax::new(BetterBasicScore, BasicScore, depth, culling)
}

#[test]
fn one_move_win_returns_max_shortcut() {
    // 5x5 grid, three in a row wins; A already has two with open ends
    let mut b = Board::with_config(5, 3);
    b.do_move(mv(1, 1, Player::A)).unwrap();
    b.do_move(mv(2, 1, Player::A)).unwrap();
    let mm = engine(3, 30);
    let (best, sc) = mm.do_minmax_seq(&mut b, 3);
    assert_eq!(sc, Score(ScoreThing::Max, 0));
    // the recommended move really wins at once
    assert_eq!(b.do_move(best.unwrap()), Ok(Some(Player::A)));
}

#[test]
fn search_blocks_the_only_losing_square() {
    // A threatens to complete (0,1),(1,1),(2,1); B must answer at (2,1)
    let mut b = Board::with_config(5, 3);
    b.do_move(mv(0, 1, Player::A)).unwrap();
    b.do_move(mv(4, 4, Player::B)).unwrap();
    b.do_move(mv(1, 1, Player::A)).unwrap();
    assert_eq!(b.current_player, Player::B);
    let mm = engine(2, 30);
    let (best, _) = mm.do_minmax_seq(&mut b, 2);
    assert_eq!(best, Some(mv(2, 1, Player::B)));
}

#[test]
fn parallel_and_sequential_agree() {
    let mut b = Board::with_config(5, 3);
    b.do_move(mv(0, 1, Player::A)).unwrap();
    b.do_move(mv(4, 4, Player::B)).unwrap();
    b.do_move(mv(1, 1, Player::A)).unwrap();
    let mm = engine(3, 30);
    let mut b2 = b.clone();
    let seq = mm.do_minmax_seq(&mut b, 3);
    let par = mm.do_minmax(&mut b2, 3);
    assert_eq!(seq, par);
    // the searches left both boards untouched
    assert_eq!(b.grid, b2.grid);
    assert_eq!(b.moves, b2.moves);
}

#[test]
fn parallel_and_sequential_agree_on_larger_board() {
    let mut b = Board::new();
    b.do_move(mv(8, 8, Player::A)).unwrap();
    b.do_move(mv(8, 9, Player::B)).unwrap();
    b.do_move(mv(9, 8, Player::A)).unwrap();
    let mm = engine(2, 8);
    let mut b2 = b.clone();
    let seq = mm.do_minmax_seq(&mut b, 2);
    let par = mm.do_minmax(&mut b2, 2);
    assert_eq!(seq, par);
}

#[test]
fn depth_zero_returns_the_leaf_score() {
    let mut b = Board::new();
    b.do_move(mv(8, 8, Player::A)).unwrap();
    let mm = engine(0, 8);
    let (best, sc) = mm.do_minmax_seq(&mut b, 0);
    assert_eq!(best, None);
    // B to move on a board scoring +20 for A, one move played
    assert_eq!(sc, Score(ScoreThing::Score(-20), -1));
}

#[test]
fn empty_board_falls_back_to_center() {
    let mut b = Board::new();
    let mm = engine(4, 8);
    let (best, sc) = mm.do_minmax_seq(&mut b, 4);
    assert_eq!(best, Some(mv(8, 8, Player::A)));
    assert_eq!(sc, Score(ScoreThing::Score(0), 0));
}

#[test]
fn search_restores_the_board() {
    let mut b = Board::with_config(5, 3);
    b.do_move(mv(1, 1, Player::A)).unwrap();
    b.do_move(mv(3, 3, Player::B)).unwrap();
    let grid = b.grid.clone();
    let score = b.score;
    let moves = b.moves.clone();
    let mm = engine(3, 30);
    let _ = mm.do_minmax_seq(&mut b, 3);
    assert_eq!(b.grid, grid);
    assert_eq!(b.score, score);
    assert_eq!(b.moves, moves);
    assert_eq!(b.won, None);
}
