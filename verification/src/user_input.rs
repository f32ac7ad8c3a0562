//! Human input strategies. The read loop lives with the match driver; the
//! library holds the decision: parse the entered text and accept it only as a
//! currently valid move.
use vstd::prelude::*;
use crate::board::{Board, BoardModel, Move, spec_parse_move};
use crate::scoring::{cell, in_range};

verus! {

/// What one prompt round does with the entered text: a well-formed move for
/// the side to move, accepted only onto an empty cell of the board.
pub open spec fn spec_propose(m: BoardModel, s: Seq<char>) -> Option<Move> {
    match spec_parse_move(m.current, s) {
        Some(mv) => if in_range(m.size, mv.pos.x as int, mv.pos.y as int) && cell(
            m.grid,
            mv.pos.x as int,
            mv.pos.y as int,
        ) is None {
            Some(mv)
        } else {
            None
        },
        None => None,
    }
}

/// A human player prompted on the console, with a fallback strategy asked for
/// help when the line is left blank. The first field is the display name, the
/// second the helper; the read loop belongs to the match driver.
#[derive(Debug, Clone)]
pub struct UserInputWithHelper<T>(pub String, pub T);

impl<T> UserInputWithHelper<T> {
    /// Decides one prompt round: the entered text must name a currently valid
    /// move, else the prompt is repeated by the driver.
    pub fn propose(&self, board: &Board, input: &str) -> (r: Option<Move>)
        requires
            board.wf(),
        ensures
            r == spec_propose(board@, input@),
    {
        propose_input(board, input)
    }
}

/// A human player prompted on the console, without help. The field is the
/// display name shown by the driver.
#[derive(Debug, Clone)]
pub struct UserInput(pub String);

impl UserInput {
    /// Decides one prompt round: the entered text must name a currently valid
    /// move, else the prompt is repeated by the driver.
    pub fn propose(&self, board: &Board, input: &str) -> (r: Option<Move>)
        requires
            board.wf(),
        ensures
            r == spec_propose(board@, input@),
    {
        propose_input(board, input)
    }
}

fn propose_input(board: &Board, input: &str) -> (r: Option<Move>)
    requires
        board.wf(),
    ensures
        r == spec_propose(board@, input@),
{
    match Move::from_string(board.current_player, input) {
        Some(mv) => {
            if board.is_move_valid(mv) {
                Some(mv)
            } else {
                None
            }
        },
        None => None,
    }
}

} // verus!
