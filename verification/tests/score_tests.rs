use gomoku::board::{Board, Move, Pos};
use gomoku::score::{Score, ScoreThing};
use gomoku::{fast_board_score, BasicScore, BetterBasicScore, Player, ScoringFunction};

#[test]
fn outcome_order_min_numeric_max() {
    assert!(ScoreThing::Min.lt(ScoreThing::Score(i32::MIN)));
    assert!(ScoreThing::Min.lt(ScoreThing::Score(0)));
    assert!(ScoreThing::Score(i32::MAX).lt(ScoreThing::Max));
    assert!(ScoreThing::Score(-3).lt(ScoreThing::Score(4)));
    assert!(ScoreThing::Min.lt(ScoreThing::Max));
    assert!(!ScoreThing::Max.lt(ScoreThing::Max));
    assert!(ScoreThing::Max.le(ScoreThing::Max));
    assert!(!ScoreThing::Score(4).lt(ScoreThing::Score(4)));
    assert!(ScoreThing::Score(4).le(ScoreThing::Score(4)));
}

#[test]
fn invert_is_an_involution() {
    let samples = [
        ScoreThing::Min,
        ScoreThing::Max,
        ScoreThing::Score(0),
        ScoreThing::Score(417),
        ScoreThing::Score(-98),
        ScoreThing::Score(i32::MAX),
        ScoreThing::Score(i32::MIN),
    ];
    for s in samples {
        assert_eq!(s.invert().invert(), s);
    }
    assert_eq!(ScoreThing::Max.invert(), ScoreThing::Min);
    assert_eq!(ScoreThing::Min.invert(), ScoreThing::Max);
    assert_eq!(ScoreThing::Score(7).invert(), ScoreThing::Score(-7));
}

#[test]
fn add_leaves_forced_outcomes_fixed() {
    for k in [i32::MIN, -5, 0, 5, i32::MAX] {
        assert_eq!(ScoreThing::Max.add(k), ScoreThing::Max);
        assert_eq!(ScoreThing::Min.add(k), ScoreThing::Min);
    }
    assert_eq!(ScoreThing::Score(10).add(-3), ScoreThing::Score(7));
    assert_eq!(ScoreThing::Score(i32::MAX).add(1), ScoreThing::Score(i32::MAX));
    assert_eq!(ScoreThing::Score(i32::MIN).add(-1), ScoreThing::Score(i32::MIN));
}

#[test]
fn score_compares_lexicographically() {
    assert!(Score(ScoreThing::Score(1), 99).lt(Score(ScoreThing::Score(2), -99)));
    assert!(Score(ScoreThing::Max, 0).lt(Score(ScoreThing::Max, 1)));
    assert!(Score(ScoreThing::Min, 5).lt(Score(ScoreThing::Score(-1000), -5)));
    assert!(!Score(ScoreThing::Max, 3).lt(Score(ScoreThing::Max, 3)));
    assert!(Score(ScoreThing::Max, 3).le(Score(ScoreThing::Max, 3)));
}

#[test]
fn fast_board_score_is_signed_for_the_mover() {
    let mut b = Board::new();
    assert_eq!(fast_board_score(&b), 0);
    b.do_move(Move { pos: Pos { x: 8, y: 8 }, player: Player::A }).unwrap();
    // B to move on a board that favors A by 20
    assert_eq!(b.score, 20);
    assert_eq!(fast_board_score(&b), -20);
}

#[test]
fn raw_scorer_reports_score_and_move_count() {
    let mut b = Board::new();
    b.do_move(Move { pos: Pos { x: 8, y: 8 }, player: Player::A }).unwrap();
    assert_eq!(BasicScore.score(&mut b), Score(ScoreThing::Score(-20), -1));
}

#[test]
fn threat_aware_scorer_sees_an_open_four() {
    let mut b = Board::new();
    for x in 4..8 {
        b.do_move(Move { pos: Pos { x, y: 8 }, player: Player::A }).unwrap();
    }
    // four committed moves: A is to move again and is one stone from winning
    assert_eq!(b.current_player, Player::A);
    assert_eq!(BetterBasicScore.score(&mut b), Score(ScoreThing::Max, 0));
    // without the threat it falls back to the raw value
    let mut b2 = Board::new();
    b2.do_move(Move { pos: Pos { x: 8, y: 8 }, player: Player::A }).unwrap();
    assert_eq!(BetterBasicScore.score(&mut b2), Score(ScoreThing::Score(-20), -1));
}
