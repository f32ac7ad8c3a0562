use gomoku::board::{Board, Move, Pos};
use gomoku::minmax::MinMax;
use gomoku::random::Random;
use gomoku::switch::Switch;
use gomoku::user_input::{UserInput, UserInputWithHelper};
use gomoku::{Ai, BasicScore, BetterBasicScore, Player};

fn mv(x: i32, y: i32, p: Player) -> Move {
    Move { pos: Pos { x, y }, player: p }
}

#[test]
fn random_takes_first_frontier_or_center() {
    let mut b = Board::new();
    assert_eq!(Random.pick_move(&mut b), Some(mv(8, 8, Player::A)));
    b.do_move(mv(8, 8, Player::A)).unwrap();
    assert_eq!(Random.pick_move(&mut b), Some(mv(7, 7, Player::B)));
}

#[test]
fn switch_hands_over_after_the_move_budget() {
    // two moves on the board and a budget of one move per side: the second
    // strategy (the search) answers, and it wins at once where Random would
    // simply take the first frontier cell
    let mut b = Board::with_config(5, 3);
    b.do_move(mv(1, 1, Player::A)).unwrap();
    b.do_move(mv(2, 1, Player::A)).unwrap();
    let search: MinMax<BetterBasicScore, BasicScore> = MinMax::new(
        BetterBasicScore,
        BasicScore,
        2,
        30,
    );
    let late = Switch(Random, search, 1);
    let picked = late.pick_move(&mut b).unwrap();
    assert_eq!(b.do_move(picked), Ok(Some(Player::A)));
    b.undo_move();
    // with a budget still open, the first strategy answers instead
    let early = Switch(Random, search, 5);
    assert_eq!(early.pick_move(&mut b), Some(mv(0, 0, Player::A)));
}

#[test]
fn user_input_accepts_only_valid_text_moves() {
    let human = UserInput(String::from("player one"));
    let mut b = Board::new();
    assert_eq!(human.propose(&b, "34"), Some(mv(3, 4, Player::A)));
    assert_eq!(human.propose(&b, "3"), None);
    assert_eq!(human.propose(&b, "!!"), None);
    // out of range on a 16-wide board
    assert_eq!(human.propose(&b, "zz"), None);
    b.do_move(mv(3, 4, Player::A)).unwrap();
    // the cell is taken now, and the mover has changed
    assert_eq!(human.propose(&b, "34"), None);
    assert_eq!(human.propose(&b, "44"), Some(mv(4, 4, Player::B)));
}

#[test]
fn helper_variant_parses_like_the_plain_one() {
    let human = UserInputWithHelper(String::from("helped"), Random);
    let b = Board::new();
    assert_eq!(human.propose(&b, "00"), Some(mv(0, 0, Player::A)));
    assert_eq!(human.propose(&b, "0"), None);
}
