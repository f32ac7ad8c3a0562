//! A strategy switcher: one strategy for the opening, another once enough
//! moves have been committed.
use vstd::prelude::*;
use crate::board::{Board, BoardModel, Move};
use crate::Ai;

verus! {

/// Plays the first strategy until each side has made the given number of
/// moves, then hands over to the second.
#[derive(Clone, Copy)]
pub struct Switch<A, B>(pub A, pub B, pub usize);

impl<A: Ai, B: Ai> Ai for Switch<A, B> {
    open spec fn valid(&self) -> bool {
        &&& self.0.valid()
        &&& self.1.valid()
        &&& self.2 <= 1000000
    }

    open spec fn spec_pick(&self, m: BoardModel) -> Option<Move> {
        if m.moves.len() >= self.2 * 2 {
            self.1.spec_pick(m)
        } else {
            self.0.spec_pick(m)
        }
    }

    fn requires_user_output(&self) -> bool {
        self.1.requires_user_output() || self.0.requires_user_output()
    }

    fn name(&self) -> &str {
        "Switch"
    }

    fn pick_move(&self, board: &mut Board) -> (r: Option<Move>) {
        if board.moves.len() >= self.2 * 2 {
            self.1.pick_move(board)
        } else {
            self.0.pick_move(board)
        }
    }
}

} // verus!
