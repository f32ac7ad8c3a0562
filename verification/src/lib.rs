use vstd::prelude::*;

pub mod board;
pub mod minmax;
pub mod random;
pub mod score;
pub mod scoring;
pub mod switch;
pub mod user_input;

use crate::board::{Board, BoardModel, Move};
use crate::score::{Score, ScoreThing};

verus! {

/// A player of the two-player game: `A` moves first.
#[derive(Debug, Clone, Copy, PartialEq, Eq, Structural, Hash)]
pub enum Player {
    A,
    B,
}

impl Player {
    /// The other player.
    pub open spec fn spec_rotate(self) -> Player {
        match self {
            Player::A => Player::B,
            Player::B => Player::A,
        }
    }

    /// Swaps the two players.
    pub fn rotate(self) -> (r: Player)
        ensures
            r == self.spec_rotate(),
    {
        match self {
            Player::A => Player::B,
            Player::B => Player::A,
        }
    }
}

/// A pluggable evaluation of how good a position is for the side to move.
/// An implementation may use the board as scratch space, but restores it
/// exactly; what it returns is a function of the board state alone.
pub trait ScoringFunction: Sized {
    /// Conditions the implementation puts on its own configuration.
    spec fn valid(&self) -> bool;

    /// The value this function assigns to a board state.
    spec fn spec_score(&self, m: BoardModel) -> Score;

    /// Evaluates the position for the side to move on a live (not yet won)
    /// board, leaving the board unchanged.
    fn score(&self, board: &mut Board) -> (r: Score)
        requires
            self.valid(),
            old(board).inv(),
            old(board)@.won is None,
        ensures
            final(board)@ == old(board)@,
            r == self.spec_score(old(board)@),
    ;
}

/// A strategy a match driver can ask for a move. `None` signals forfeit. The
/// board is handed over as scratch space and comes back unchanged: the driver,
/// not the strategy, commits the chosen move.
pub trait Ai: Sized {
    /// Conditions the implementation puts on its own configuration.
    spec fn valid(&self) -> bool;

    /// The move this strategy picks on a given board state.
    spec fn spec_pick(&self, m: BoardModel) -> Option<Move>;

    /// Whether the strategy needs the board printed for a human.
    fn requires_user_output(&self) -> bool;

    /// A short display name for the strategy.
    fn name(&self) -> &str;

    /// Picks a move on a live board, leaving the board unchanged.
    fn pick_move(&self, board: &mut Board) -> (r: Option<Move>)
        requires
            self.valid(),
            old(board).inv(),
            old(board)@.won is None,
        ensures
            final(board)@ == old(board)@,
            r == self.spec_pick(old(board)@),
    ;
}

/// The whole-board score seen from the side to move: positive when the mover
/// is ahead.
pub open spec fn spec_fast_board_score(m: BoardModel) -> int {
    if m.current is A {
        m.score
    } else {
        0 - m.score
    }
}

/// The running board score, negated for B so that the mover's advantage is
/// positive.
pub fn fast_board_score(board: &Board) -> (r: i32)
    requires
        board.inv(),
    ensures
        r as int == spec_fast_board_score(board@),
{
    proof {
        crate::scoring::lemma_score_bounds(board@.grid, board@.size, board@.win, 0, 0, Player::A);
    }
    if board.current_player == Player::A {
        board.score
    } else {
        -board.score
    }
}

/// The move count that enters a tie-break, held to a range negation cannot
/// overflow. Any reachable history is far below the cap.
pub open spec fn spec_move_count(m: BoardModel) -> int {
    if m.moves.len() <= 100000 {
        m.moves.len() as int
    } else {
        100000
    }
}

fn move_count(board: &Board) -> (r: i32)
    ensures
        r as int == spec_move_count(board@),
        0 <= r <= 100000,
{
    let n = board.moves.len();
    if n <= 100000 {
        n as i32
    } else {
        100000
    }
}

/// The raw material heuristic: the incremental board score from the mover's
/// perspective, tie-broken toward positions reached in fewer moves.
#[derive(Clone, Copy)]
pub struct BasicScore;

impl ScoringFunction for BasicScore {
    open spec fn valid(&self) -> bool {
        true
    }

    open spec fn spec_score(&self, m: BoardModel) -> Score {
        Score(
            ScoreThing::Score(spec_fast_board_score(m) as i32),
            (0 - spec_move_count(m)) as i32,
        )
    }

    fn score(&self, board: &mut Board) -> (r: Score) {
        let s = fast_board_score(board);
        let mc = move_count(board);
        Score(ScoreThing::Score(s), -mc)
    }
}

/// The threat-aware heuristic: a position where the mover already stands one
/// stone from a win, or where the game is decided, is reported as a forced
/// outcome; otherwise the raw score. A known approximation: it does not check
/// that the opponent cannot answer the threat.
#[derive(Clone, Copy)]
pub struct BetterBasicScore;

impl BetterBasicScore {
    /// How many windows are one stone short of a win for `p`.
    pub open spec fn spec_own_threats(m: BoardModel, p: Player) -> int {
        if p is A {
            m.a_threats
        } else {
            m.b_threats
        }
    }
}

impl ScoringFunction for BetterBasicScore {
    open spec fn valid(&self) -> bool {
        true
    }

    open spec fn spec_score(&self, m: BoardModel) -> Score {
        if BetterBasicScore::spec_own_threats(m, m.current) >= 1 {
            Score(ScoreThing::Max, 0)
        } else if m.won == Some(m.current) {
            Score(ScoreThing::Max, 0)
        } else if m.won is Some {
            Score(ScoreThing::Min, 0)
        } else {
            Score(
                ScoreThing::Score(spec_fast_board_score(m) as i32),
                (0 - spec_move_count(m)) as i32,
            )
        }
    }

    fn score(&self, board: &mut Board) -> (r: Score) {
        let own = match board.current_player {
            Player::A => board.player_a_one_left,
            Player::B => board.player_b_one_left,
        };
        if own >= 1 {
            return Score(ScoreThing::Max, 0);
        }
        match board.won {
            Some(w) => {
                if w == board.current_player {
                    Score(ScoreThing::Max, 0)
                } else {
                    Score(ScoreThing::Min, 0)
                }
            },
            None => {
                let s = fast_board_score(board);
                let mc = move_count(board);
                Score(ScoreThing::Score(s), -mc)
            },
        }
    }
}

/// The raw heuristic reports a numeric value on every state, never a forced
/// outcome; it therefore meets the ordering-scorer side condition of
/// `minmax::lemma_search_avoids_refuted_moves`.
pub proof fn lemma_basic_score_never_forced(s: BoardModel)
    ensures
        BasicScore.spec_score(s).0 != ScoreThing::Min,
        BasicScore.spec_score(s).0 != ScoreThing::Max,
{
}

} // verus!
