use gomoku::board::{Move, Pos};
use gomoku::Player;

#[test]
fn parses_two_decimal_digits() {
    let m = Move::from_string(Player::A, "77").unwrap();
    assert_eq!(m.pos, Pos { x: 7, y: 7 });
    assert_eq!(m.player, Player::A);
    let m2 = Move::from_string(Player::B, "05").unwrap();
    assert_eq!(m2.pos, Pos { x: 0, y: 5 });
    assert_eq!(m2.player, Player::B);
}

#[test]
fn parses_letter_digits_both_cases() {
    let m = Move::from_string(Player::A, "zz").unwrap();
    assert_eq!(m.pos, Pos { x: 35, y: 35 });
    let m2 = Move::from_string(Player::A, "AB").unwrap();
    assert_eq!(m2.pos, Pos { x: 10, y: 11 });
    let m3 = Move::from_string(Player::A, "a0").unwrap();
    assert_eq!(m3.pos, Pos { x: 10, y: 0 });
}

#[test]
fn rejects_wrong_lengths() {
    assert_eq!(Move::from_string(Player::A, ""), None);
    assert_eq!(Move::from_string(Player::A, "7"), None);
    assert_eq!(Move::from_string(Player::A, "777"), None);
}

#[test]
fn rejects_non_digits_and_whitespace() {
    assert_eq!(Move::from_string(Player::A, "!a"), None);
    assert_eq!(Move::from_string(Player::A, "7 "), None);
    assert_eq!(Move::from_string(Player::A, " 7"), None);
    assert_eq!(Move::from_string(Player::A, "7\n"), None);
}
