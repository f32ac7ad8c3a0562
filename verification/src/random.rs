//! A trivial opponent: it plays the first frontier candidate, or the board
//! center when the frontier is empty.
use vstd::prelude::*;
use crate::board::{Board, BoardModel, Move, Pos};
use crate::minmax::{spec_candidates, spec_center_move};
use crate::Ai;

verus! {

/// The strategy that takes whatever candidate comes first.
pub struct Random;

impl Ai for Random {
    open spec fn valid(&self) -> bool {
        true
    }

    open spec fn spec_pick(&self, m: BoardModel) -> Option<Move> {
        if spec_candidates(m).len() > 0 {
            Some(spec_candidates(m)[0])
        } else {
            Some(spec_center_move(m))
        }
    }

    fn requires_user_output(&self) -> bool {
        false
    }

    fn name(&self) -> &str {
        "Random"
    }

    fn pick_move(&self, board: &mut Board) -> (r: Option<Move>) {
        let moves = board.get_moves();
        if moves.len() > 0 {
            Some(moves[0])
        } else {
            let c = board.size / 2;
            Some(Move { pos: Pos { x: c as i32, y: c as i32 }, player: board.current_player })
        }
    }
}

} // verus!
