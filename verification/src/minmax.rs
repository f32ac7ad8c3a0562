//! The adversarial search engine: recursive negamax over the frontier move
//! generator and the do/undo protocol, with a heuristic ordering pass, a
//! branching cutoff, and a short-circuit on a guaranteed win. The sequential
//! and the parallel form compute the same function of the board state.
use vstd::prelude::*;
use rayon::iter::{IntoParallelRefIterator, ParallelIterator};
use crate::board::{
    Board, BoardModel, Move, Pos, do_move_ok, do_move_state, frontier_cell, frontier_moves,
    lemma_frontier_moves_ok, lemma_do_undo_round_trip, move_winner,
};
use crate::scoring::{grid_wf, in_range};
use crate::score::{Score, ScoreThing};
use crate::{Ai, ScoringFunction};

verus! {

/// The search engine: a deep scoring function `score` for leaves, a cheaper
/// `filter_score` for the ordering pass, a depth limit, and the number of
/// best-ordered candidates carried into the deep pass.
#[derive(Clone, Copy)]
pub struct MinMax<T, Q> {
    pub score: T,
    pub filter_score: Q,
    pub depth: u32,
    pub culling: usize,
}

impl<T, Q> MinMax<T, Q> {
    pub fn new(score: T, filter_score: Q, depth: u32, culling: usize) -> (r: MinMax<T, Q>)
        ensures
            r.score == score,
            r.filter_score == filter_score,
            r.depth == depth,
            r.culling == culling,
    {
        MinMax { score, filter_score, depth, culling }
    }
}

/// The ordering-pass classification of one candidate: an immediate win for
/// the mover, an immediate win for the opponent, or the inverted shallow
/// evaluation of the resulting position (it is the opponent's position).
pub open spec fn spec_classify<Q: ScoringFunction>(q: &Q, m: BoardModel, mv: Move) -> ScoreThing {
    let m2 = do_move_state(m, mv);
    match m2.won {
        Some(w) => if w == m.current {
            ScoreThing::Max
        } else {
            ScoreThing::Min
        },
        None => q.spec_score(m2).0.spec_invert(),
    }
}

/// Stable descending insertion: the new pair goes behind every pair whose key
/// is at least as large, so earlier equals stay earlier.
pub open spec fn spec_insert_desc(x: (Move, ScoreThing), s: Seq<(Move, ScoreThing)>) -> Seq<
    (Move, ScoreThing),
>
    decreases s.len(),
{
    if s.len() == 0 {
        seq![x]
    } else if x.1.spec_le(s[0].1) {
        seq![s[0]] + spec_insert_desc(x, s.drop_first())
    } else {
        seq![x] + s
    }
}

/// The stable descending sort of the candidate list by classification.
pub open spec fn spec_sort_desc(s: Seq<(Move, ScoreThing)>) -> Seq<(Move, ScoreThing)>
    decreases s.len(),
{
    if s.len() == 0 {
        Seq::empty()
    } else {
        spec_insert_desc(s.last(), spec_sort_desc(s.drop_last()))
    }
}

pub proof fn lemma_insert_desc_len(x: (Move, ScoreThing), s: Seq<(Move, ScoreThing)>)
    ensures
        spec_insert_desc(x, s).len() == s.len() + 1,
    decreases s.len(),
{
    if s.len() > 0 && x.1.spec_le(s[0].1) {
        lemma_insert_desc_len(x, s.drop_first());
    }
}

pub proof fn lemma_sort_desc_len(s: Seq<(Move, ScoreThing)>)
    ensures
        spec_sort_desc(s).len() == s.len(),
    decreases s.len(),
{
    if s.len() > 0 {
        lemma_sort_desc_len(s.drop_last());
        lemma_insert_desc_len(s.last(), spec_sort_desc(s.drop_last()));
    }
}

/// Everything in the inserted list is the new pair or was already present.
pub proof fn lemma_insert_desc_elems(x: (Move, ScoreThing), s: Seq<(Move, ScoreThing)>)
    ensures
        forall|i: int|
            0 <= i < spec_insert_desc(x, s).len() ==> (#[trigger] spec_insert_desc(x, s)[i] == x
                || s.contains(spec_insert_desc(x, s)[i])),
    decreases s.len(),
{
    if s.len() > 0 && x.1.spec_le(s[0].1) {
        lemma_insert_desc_elems(x, s.drop_first());
        assert forall|i: int| 0 <= i < spec_insert_desc(x, s).len() implies (
        #[trigger] spec_insert_desc(x, s)[i] == x || s.contains(spec_insert_desc(x, s)[i])) by {
            if i > 0 {
                let e = spec_insert_desc(x, s)[i];
                assert(e == spec_insert_desc(x, s.drop_first())[i - 1]);
                if e != x {
                    let j = choose|j: int|
                        0 <= j < s.drop_first().len() && s.drop_first()[j] == e;
                    assert(s[j + 1] == e);
                }
            }
        }
    }
}

/// Everything in the sorted list was among the candidates.
pub proof fn lemma_sort_desc_elems(s: Seq<(Move, ScoreThing)>)
    ensures
        forall|i: int|
            0 <= i < spec_sort_desc(s).len() ==> s.contains(#[trigger] spec_sort_desc(s)[i]),
    decreases s.len(),
{
    if s.len() > 0 {
        lemma_sort_desc_elems(s.drop_last());
        lemma_insert_desc_elems(s.last(), spec_sort_desc(s.drop_last()));
        assert forall|i: int| 0 <= i < spec_sort_desc(s).len() implies s.contains(
            #[trigger] spec_sort_desc(s)[i],
        ) by {
            let e = spec_sort_desc(s)[i];
            if e == s.last() {
                assert(s[s.len() - 1] == e);
            } else {
                assert(spec_sort_desc(s.drop_last()).contains(e));
                let j = choose|j: int|
                    0 <= j < spec_sort_desc(s.drop_last()).len() && spec_sort_desc(s.drop_last())[j]
                        == e;
                assert(s.drop_last().contains(e));
                let j2 = choose|j2: int| 0 <= j2 < s.drop_last().len() && s.drop_last()[j2] == e;
                assert(s[j2] == e);
            }
        }
    }
}

/// The head of the sorted list carries the largest classification.
pub proof fn lemma_sort_desc_first(s: Seq<(Move, ScoreThing)>)
    requires
        s.len() > 0,
    ensures
        spec_sort_desc(s).len() == s.len(),
        forall|i: int| 0 <= i < s.len() ==> (#[trigger] s[i].1).spec_le(spec_sort_desc(s)[0].1),
    decreases s.len(),
{
    lemma_sort_desc_len(s);
    let sorted_tail = spec_sort_desc(s.drop_last());
    if s.len() == 1 {
        assert(spec_sort_desc(s) == spec_insert_desc(s.last(), Seq::empty()));
    } else {
        lemma_sort_desc_first(s.drop_last());
        lemma_insert_desc_len(s.last(), sorted_tail);
        assert(spec_insert_desc(s.last(), sorted_tail)[0] == (if s.last().1.spec_le(
            sorted_tail[0].1,
        ) {
            sorted_tail[0]
        } else {
            s.last()
        }));
        assert forall|i: int| 0 <= i < s.len() implies (#[trigger] s[i].1).spec_le(
            spec_sort_desc(s)[0].1,
        ) by {
            if i < s.len() - 1 {
                assert(s.drop_last()[i] == s[i]);
            }
        }
    }
}

/// The first-seen maximum of the deep-pass results: later results replace the
/// best only when strictly greater, so among ties the earliest stays.
pub open spec fn spec_best(s: Seq<(Move, Score)>) -> (Option<Move>, Score)
    decreases s.len(),
{
    if s.len() == 0 {
        (None, Score(ScoreThing::Score(0), 0))
    } else if s.len() == 1 {
        (Some(s[0].0), s[0].1)
    } else {
        let prev = spec_best(s.drop_last());
        if prev.1.spec_lt(s.last().1) {
            (Some(s.last().0), s.last().1)
        } else {
            prev
        }
    }
}

/// The candidate list the search uses: the frontier moves in row-major order.
pub open spec fn spec_candidates(m: BoardModel) -> Seq<Move> {
    frontier_moves(m.grid, m.size, m.current, m.size)
}

/// The fixed fallback move on a board with no candidates: the board center.
pub open spec fn spec_center_move(m: BoardModel) -> Move {
    Move { pos: Pos { x: (m.size / 2) as i32, y: (m.size / 2) as i32 }, player: m.current }
}

/// Each candidate paired with its ordering-pass classification.
pub open spec fn spec_classified<Q: ScoringFunction>(q: &Q, m: BoardModel) -> Seq<
    (Move, ScoreThing),
> {
    Seq::new(
        spec_candidates(m).len(),
        |i: int| (spec_candidates(m)[i], spec_classify(q, m, spec_candidates(m)[i])),
    )
}

/// What the search returns on a board state: the scoring function's value at
/// depth zero; the center with a neutral score when the frontier is empty;
/// the best-classified candidate at once when it is a guaranteed win; and
/// otherwise the first-seen maximum over the deep evaluations of the top
/// `culling` candidates in classification order.
pub open spec fn spec_minmax<T: ScoringFunction, Q: ScoringFunction>(
    t: &T,
    q: &Q,
    culling: int,
    m: BoardModel,
    recursion: int,
) -> (Option<Move>, Score)
    decreases recursion, 2int, 0int,
{
    if recursion <= 0 {
        (None, t.spec_score(m))
    } else {
        let cands = spec_candidates(m);
        if cands.len() == 0 {
            (Some(spec_center_move(m)), Score(ScoreThing::Score(0), 0))
        } else {
            let sorted = spec_sort_desc(spec_classified(q, m));
            if sorted[0].1 == ScoreThing::Max {
                (Some(sorted[0].0), Score(ScoreThing::Max, 0))
            } else {
                let cut = if culling <= 0 {
                    0int
                } else if culling < sorted.len() {
                    culling
                } else {
                    sorted.len() as int
                };
                spec_best(spec_deep_results(t, q, culling, m, sorted.take(cut), recursion))
            }
        }
    }
}

/// Each top candidate paired with its deep-pass value, in order.
pub open spec fn spec_deep_results<T: ScoringFunction, Q: ScoringFunction>(
    t: &T,
    q: &Q,
    culling: int,
    m: BoardModel,
    top: Seq<(Move, ScoreThing)>,
    recursion: int,
) -> Seq<(Move, Score)>
    decreases recursion, 1int, top.len(),
{
    if top.len() == 0 {
        Seq::empty()
    } else {
        spec_deep_results(t, q, culling, m, top.drop_last(), recursion) + seq![
            (top.last().0, spec_deep_score(t, q, culling, m, top.last().0, recursion)),
        ]
    }
}

/// The deep-pass value of one candidate: a forced outcome tagged with the ply
/// when the move ends the game at once, and otherwise the negamax flip of the
/// recursive search one level down (that value is the opponent's).
pub open spec fn spec_deep_score<T: ScoringFunction, Q: ScoringFunction>(
    t: &T,
    q: &Q,
    culling: int,
    m: BoardModel,
    mv: Move,
    recursion: int,
) -> Score
    decreases recursion, 0int, 0int,
{
    if recursion <= 0 {
        Score(ScoreThing::Score(0), 0)
    } else {
        let m2 = do_move_state(m, mv);
        match m2.won {
            Some(w) => if w == m.current {
                Score(ScoreThing::Max, recursion as i32)
            } else {
                Score(ScoreThing::Min, recursion as i32)
            },
            None => {
                let sub = spec_minmax(t, q, culling, m2, recursion - 1).1;
                Score(
                    sub.0.spec_invert(),
                    if sub.1 == i32::MIN {
                        i32::MIN
                    } else {
                        (0 - sub.1) as i32
                    },
                )
            },
        }
    }
}

/// One ordering-pass probe: tentatively applies the candidate, classifies the
/// resulting position, and undoes the tentative move, restoring the board.
pub(crate) fn classify_move<Q: ScoringFunction>(q: &Q, board: &mut Board, mv: Move) -> (r:
    ScoreThing)
    requires
        q.valid(),
        old(board).inv(),
        old(board)@.won is None,
        do_move_ok(old(board)@, mv),
    ensures
        final(board)@ == old(board)@,
        r == spec_classify(q, old(board)@, mv),
{
    let ghost m = board@;
    let want = board.current_player;
    let _ = board.do_move(mv);
    let r = match board.won {
        Some(w) => if w == want {
            ScoreThing::Max
        } else {
            ScoreThing::Min
        },
        None => q.score(board).0.invert(),
    };
    board.undo_move();
    proof {
        lemma_do_undo_round_trip(m, mv);
    }
    r
}

/// Where `spec_insert_desc` puts the new pair: at the first index whose key
/// is below it.
proof fn lemma_insert_desc_at(x: (Move, ScoreThing), s: Seq<(Move, ScoreThing)>, j: int)
    requires
        0 <= j <= s.len(),
        forall|jj: int| 0 <= jj < j ==> x.1.spec_le(#[trigger] s[jj].1),
        j < s.len() ==> !x.1.spec_le(s[j].1),
    ensures
        spec_insert_desc(x, s) == s.insert(j, x),
    decreases j,
{
    if j == 0 {
        if s.len() == 0 {
            assert(spec_insert_desc(x, s) =~= s.insert(0, x));
        } else {
            assert(spec_insert_desc(x, s) =~= s.insert(0, x));
        }
    } else {
        assert(x.1.spec_le(s[0].1));
        assert forall|jj: int| 0 <= jj < j - 1 implies x.1.spec_le(
            #[trigger] s.drop_first()[jj].1,
        ) by {
            assert(s.drop_first()[jj] == s[jj + 1]);
        }
        if j - 1 < s.drop_first().len() {
            assert(s.drop_first()[j - 1] == s[j]);
        }
        lemma_insert_desc_at(x, s.drop_first(), j - 1);
        assert(spec_insert_desc(x, s) =~= s.insert(j, x));
    }
}

/// Inserts one classified candidate into the descending, stably ordered list.
fn insert_sorted(v: &mut Vec<(Move, ScoreThing)>, x: (Move, ScoreThing))
    ensures
        final(v)@ == spec_insert_desc(x, old(v)@),
{
    let mut j: usize = 0;
    while j < v.len() && x.1.le(v[j].1)
        invariant
            j <= v@.len(),
            v@ == old(v)@,
            forall|jj: int| 0 <= jj < j as int ==> x.1.spec_le(#[trigger] v@[jj].1),
        decreases v@.len() - j,
    {
        j = j + 1;
    }
    proof {
        lemma_insert_desc_at(x, v@, j as int);
    }
    v.insert(j, x);
}

impl<T: ScoringFunction, Q: ScoringFunction> MinMax<T, Q> {
    /// The configuration bounds the search relies on.
    pub open spec fn wf(&self) -> bool {
        &&& self.score.valid()
        &&& self.filter_score.valid()
        &&& self.depth <= 100000
        &&& self.culling <= 100000
    }

    /// The sequential search: explores by do/undo cycles on the one shared
    /// board and always restores it before returning.
    #[verifier::loop_isolation(false)]
    #[verifier::rlimit(100)]
    pub fn do_minmax_seq(&self, board: &mut Board, recursion: u32) -> (r: (Option<Move>, Score))
        requires
            self.wf(),
            old(board).inv(),
            old(board)@.won is None,
            recursion <= 100000,
        ensures
            final(board)@ == old(board)@,
            r == spec_minmax(
                &self.score,
                &self.filter_score,
                self.culling as int,
                old(board)@,
                recursion as int,
            ),
        decreases recursion, 1int,
    {
        let ghost m = board@;
        if recursion == 0 {
            let s = self.score.score(board);
            return (None, s);
        }
        let want = board.current_player;
        let cands = board.get_moves();
        proof {
            lemma_frontier_moves_ok(m.grid, m.size, m.current, m.size);
        }
        if cands.len() == 0 {
            let c: i32 = (center_coord(board)) as i32;
            return (
                Some(Move { pos: Pos { x: c, y: c }, player: want }),
                Score(ScoreThing::Score(0), 0),
            );
        }
        let mut pairs: Vec<(Move, ScoreThing)> = Vec::new();
        let mut i: usize = 0;
        while i < cands.len()
            invariant
                i <= cands@.len(),
                pairs@.len() == i as int,
                forall|j: int|
                    0 <= j < i as int ==> #[trigger] pairs@[j] == (
                        cands@[j],
                        spec_classify(&self.filter_score, m, cands@[j]),
                    ),
                board@ == m,
            decreases cands@.len() - i,
        {
            let mv = cands[i];
            proof {
                assert(frontier_cell(m.grid, m.size, mv.pos.x as int, mv.pos.y as int));
            }
            let cls = classify_move(&self.filter_score, board, mv);
            pairs.push((mv, cls));
            i = i + 1;
        }
        let ghost classified = spec_classified(&self.filter_score, m);
        proof {
            assert(pairs@ =~= classified);
        }
        let mut sorted_v: Vec<(Move, ScoreThing)> = Vec::new();
        let mut i2: usize = 0;
        while i2 < pairs.len()
            invariant
                i2 <= pairs@.len(),
                sorted_v@ == spec_sort_desc(pairs@.take(i2 as int)),
                board@ == m,
            decreases pairs@.len() - i2,
        {
            let x = pairs[i2];
            insert_sorted(&mut sorted_v, x);
            proof {
                assert(pairs@.take(i2 as int + 1).drop_last() =~= pairs@.take(i2 as int));
                assert(pairs@.take(i2 as int + 1).last() == pairs@[i2 as int]);
            }
            i2 = i2 + 1;
        }
        let ghost sorted = spec_sort_desc(classified);
        proof {
            assert(pairs@.take(pairs@.len() as int) =~= pairs@);
            assert(sorted_v@ == sorted);
            lemma_sort_desc_len(classified);
            lemma_sort_desc_elems(classified);
        }
        let first = sorted_v[0];
        if first.1 == ScoreThing::Max {
            return (Some(first.0), Score(ScoreThing::Max, 0));
        }
        let cut: usize = if self.culling < sorted_v.len() {
            self.culling
        } else {
            sorted_v.len()
        };
        let ghost top = sorted.take(cut as int);
        let mut bestmv: Option<Move> = None;
        let mut bestsc = Score(ScoreThing::Score(0), 0);
        let mut i3: usize = 0;
        while i3 < cut
            invariant
                i3 <= cut,
                cut as int <= sorted.len(),
                board@ == m,
                (bestmv, bestsc) == spec_best(
                    spec_deep_results(
                        &self.score,
                        &self.filter_score,
                        self.culling as int,
                        m,
                        top.take(i3 as int),
                        recursion as int,
                    ),
                ),
                bestmv is None <==> i3 == 0,
            decreases cut - i3,
        {
            let mv = sorted_v[i3].0;
            proof {
                assert(classified.contains(sorted[i3 as int]));
                let j = choose|j: int|
                    0 <= j < classified.len() && classified[j] == sorted[i3 as int];
                assert(frontier_cell(m.grid, m.size, mv.pos.x as int, mv.pos.y as int));
                assert(top[i3 as int] == sorted[i3 as int]);
            }
            let val = self.deep_eval_seq(board, mv, recursion);
            if bestmv.is_none() || bestsc.lt(val) {
                bestmv = Some(mv);
                bestsc = val;
            }
            proof {
                assert(top.take(i3 as int + 1).drop_last() =~= top.take(i3 as int));
                assert(top.take(i3 as int + 1).last() == top[i3 as int]);
                let dr_i = spec_deep_results(
                    &self.score,
                    &self.filter_score,
                    self.culling as int,
                    m,
                    top.take(i3 as int),
                    recursion as int,
                );
                lemma_deep_results_len(
                    &self.score,
                    &self.filter_score,
                    self.culling as int,
                    m,
                    top.take(i3 as int),
                    recursion as int,
                );
                let pair = (
                    top[i3 as int].0,
                    spec_deep_score(
                        &self.score,
                        &self.filter_score,
                        self.culling as int,
                        m,
                        top[i3 as int].0,
                        recursion as int,
                    ),
                );
                assert(spec_deep_results(
                    &self.score,
                    &self.filter_score,
                    self.culling as int,
                    m,
                    top.take(i3 as int + 1),
                    recursion as int,
                ) == dr_i + seq![pair]);
                assert((dr_i + seq![pair]).drop_last() =~= dr_i);
                assert((dr_i + seq![pair]).last() == pair);
            }
            i3 = i3 + 1;
        }
        proof {
            assert(top.take(cut as int) =~= top);
        }
        (bestmv, bestsc)
    }

    /// Evaluates one top candidate in the deep pass: applies it, scores a
    /// game-ending move directly (tagging the ply for the tie-break), or
    /// recurses one level down and flips the returned score, then undoes.
    fn deep_eval_seq(&self, board: &mut Board, mv: Move, recursion: u32) -> (r: Score)
        requires
            self.wf(),
            old(board).inv(),
            old(board)@.won is None,
            do_move_ok(old(board)@, mv),
            1 <= recursion <= 100000,
        ensures
            final(board)@ == old(board)@,
            r == spec_deep_score(
                &self.score,
                &self.filter_score,
                self.culling as int,
                old(board)@,
                mv,
                recursion as int,
            ),
        decreases recursion, 0int,
    {
        let ghost m = board@;
        let want = board.current_player;
        let _ = board.do_move(mv);
        let r = match board.won {
            Some(w) => if w == want {
                Score(ScoreThing::Max, recursion as i32)
            } else {
                Score(ScoreThing::Min, recursion as i32)
            },
            None => {
                let sub = self.do_minmax_seq(board, recursion - 1);
                let big = sub.1.0;
                let small = sub.1.1;
                Score(
                    big.invert(),
                    if small == i32::MIN {
                        small
                    } else {
                        -small
                    },
                )
            },
        };
        board.undo_move();
        proof {
            lemma_do_undo_round_trip(m, mv);
        }
        r
    }
}

/// The coordinate of the board center, the fixed opening fallback.
fn center_coord(board: &Board) -> (r: usize)
    requires
        board.wf(),
    ensures
        r as int == board@.size / 2,
        r <= 18,
{
    board.size / 2
}

pub proof fn lemma_deep_results_len<T: ScoringFunction, Q: ScoringFunction>(
    t: &T,
    q: &Q,
    culling: int,
    m: BoardModel,
    top: Seq<(Move, ScoreThing)>,
    recursion: int,
)
    ensures
        spec_deep_results(t, q, culling, m, top, recursion).len() == top.len(),
    decreases top.len(),
{
    if top.len() > 0 {
        lemma_deep_results_len(t, q, culling, m, top.drop_last(), recursion);
    }
}

/// Relies on rayon's `par_iter().map(..).collect()`: the closure is applied to
/// every element and the results are collected in the input's order. The
/// closure only calls the verified `classify_move`, each time on a fresh copy
/// made by the derived memberwise clone of `Board`, so each slot holds that
/// function's value for its move on the given board state.
#[verifier::external_body]
fn par_classify<Q: ScoringFunction + Send + Sync>(q: &Q, board: &Board, moves: &Vec<Move>) -> (r:
    Vec<ScoreThing>)
    requires
        q.valid(),
        board.inv(),
        board@.won is None,
        forall|i: int| 0 <= i < moves@.len() ==> do_move_ok(board@, #[trigger] moves@[i]),
    ensures
        r@.len() == moves@.len(),
        forall|i: int|
            0 <= i < moves@.len() ==> r@[i] == spec_classify(q, board@, #[trigger] moves@[i]),
{
    moves.par_iter().map(|mv| classify_move(q, &mut board.clone(), *mv)).collect()
}

/// Relies on rayon's `par_iter().map(..).collect()` in the same way: every
/// worker evaluates one candidate on its own clone of the board through the
/// verified `deep_eval_par`, and the results come back in input order.
#[verifier::external_body]
fn par_deep<T: ScoringFunction + Send + Sync, Q: ScoringFunction + Send + Sync>(
    mm: &MinMax<T, Q>,
    board: &Board,
    moves: &Vec<Move>,
    recursion: u32,
) -> (r: Vec<Score>)
    requires
        mm.wf(),
        board.inv(),
        board@.won is None,
        1 <= recursion <= 100000,
        forall|i: int| 0 <= i < moves@.len() ==> do_move_ok(board@, #[trigger] moves@[i]),
    ensures
        r@.len() == moves@.len(),
        forall|i: int|
            0 <= i < moves@.len() ==> r@[i] == spec_deep_score(
                &mm.score,
                &mm.filter_score,
                mm.culling as int,
                board@,
                #[trigger] moves@[i],
                recursion as int,
            ),
{
    moves.par_iter().map(|mv| mm.deep_eval_par(&mut board.clone(), *mv, recursion)).collect()
}

impl<T: ScoringFunction + Send + Sync, Q: ScoringFunction + Send + Sync> MinMax<T, Q> {
    /// The parallel search: identical control flow to the sequential form,
    /// but the ordering pass and the deep pass fan the candidates out across
    /// workers, each on a private clone of the board; the shared board is
    /// never touched. Both forms return the same function of the board state.
    #[verifier::loop_isolation(false)]
    #[verifier::rlimit(100)]
    pub fn do_minmax(&self, board: &mut Board, recursion: u32) -> (r: (Option<Move>, Score))
        requires
            self.wf(),
            old(board).inv(),
            old(board)@.won is None,
            recursion <= 100000,
        ensures
            final(board)@ == old(board)@,
            r == spec_minmax(
                &self.score,
                &self.filter_score,
                self.culling as int,
                old(board)@,
                recursion as int,
            ),
    {
        let ghost m = board@;
        if recursion == 0 {
            let s = self.score.score(board);
            return (None, s);
        }
        let want = board.current_player;
        let cands = board.get_moves();
        proof {
            lemma_frontier_moves_ok(m.grid, m.size, m.current, m.size);
            assert forall|i: int| 0 <= i < cands@.len() implies do_move_ok(
                m,
                #[trigger] cands@[i],
            ) by {
                assert(frontier_cell(m.grid, m.size, cands@[i].pos.x as int, cands@[i].pos.y as int));
            }
        }
        if cands.len() == 0 {
            let c: i32 = (center_coord(board)) as i32;
            return (
                Some(Move { pos: Pos { x: c, y: c }, player: want }),
                Score(ScoreThing::Score(0), 0),
            );
        }
        let classes = par_classify(&self.filter_score, board, &cands);
        let mut pairs: Vec<(Move, ScoreThing)> = Vec::new();
        let mut i: usize = 0;
        while i < cands.len()
            invariant
                i <= cands@.len(),
                classes@.len() == cands@.len(),
                pairs@.len() == i as int,
                forall|j: int|
                    0 <= j < i as int ==> #[trigger] pairs@[j] == (
                        cands@[j],
                        spec_classify(&self.filter_score, m, cands@[j]),
                    ),
                board@ == m,
            decreases cands@.len() - i,
        {
            pairs.push((cands[i], classes[i]));
            i = i + 1;
        }
        let ghost classified = spec_classified(&self.filter_score, m);
        proof {
            assert(pairs@ =~= classified);
        }
        let mut sorted_v: Vec<(Move, ScoreThing)> = Vec::new();
        let mut i2: usize = 0;
        while i2 < pairs.len()
            invariant
                i2 <= pairs@.len(),
                sorted_v@ == spec_sort_desc(pairs@.take(i2 as int)),
                board@ == m,
            decreases pairs@.len() - i2,
        {
            let x = pairs[i2];
            insert_sorted(&mut sorted_v, x);
            proof {
                assert(pairs@.take(i2 as int + 1).drop_last() =~= pairs@.take(i2 as int));
                assert(pairs@.take(i2 as int + 1).last() == pairs@[i2 as int]);
            }
            i2 = i2 + 1;
        }
        let ghost sorted = spec_sort_desc(classified);
        proof {
            assert(pairs@.take(pairs@.len() as int) =~= pairs@);
            assert(sorted_v@ == sorted);
            lemma_sort_desc_len(classified);
            lemma_sort_desc_elems(classified);
        }
        let first = sorted_v[0];
        if first.1 == ScoreThing::Max {
            return (Some(first.0), Score(ScoreThing::Max, 0));
        }
        let cut: usize = if self.culling < sorted_v.len() {
            self.culling
        } else {
            sorted_v.len()
        };
        let ghost top = sorted.take(cut as int);
        let mut tops: Vec<Move> = Vec::new();
        let mut i4: usize = 0;
        while i4 < cut
            invariant
                i4 <= cut,
                cut as int <= sorted.len(),
                tops@.len() == i4 as int,
                forall|j: int| 0 <= j < i4 as int ==> #[trigger] tops@[j] == top[j].0,
                board@ == m,
            decreases cut - i4,
        {
            tops.push(sorted_v[i4].0);
            i4 = i4 + 1;
        }
        proof {
            assert forall|j: int| 0 <= j < tops@.len() implies do_move_ok(
                m,
                #[trigger] tops@[j],
            ) by {
                assert(classified.contains(sorted[j]));
                let jj = choose|jj: int| 0 <= jj < classified.len() && classified[jj] == sorted[j];
                assert(frontier_cell(
                    m.grid,
                    m.size,
                    tops@[j].pos.x as int,
                    tops@[j].pos.y as int,
                ));
            }
        }
        let vals = par_deep(self, board, &tops, recursion);
        let mut bestmv: Option<Move> = None;
        let mut bestsc = Score(ScoreThing::Score(0), 0);
        let mut i3: usize = 0;
        while i3 < cut
            invariant
                i3 <= cut,
                cut as int <= sorted.len(),
                tops@.len() == cut as int,
                vals@.len() == cut as int,
                forall|j: int| 0 <= j < cut as int ==> #[trigger] tops@[j] == top[j].0,
                forall|j: int|
                    0 <= j < cut as int ==> #[trigger] vals@[j] == spec_deep_score(
                        &self.score,
                        &self.filter_score,
                        self.culling as int,
                        m,
                        tops@[j],
                        recursion as int,
                    ),
                board@ == m,
                (bestmv, bestsc) == spec_best(
                    spec_deep_results(
                        &self.score,
                        &self.filter_score,
                        self.culling as int,
                        m,
                        top.take(i3 as int),
                        recursion as int,
                    ),
                ),
                bestmv is None <==> i3 == 0,
            decreases cut - i3,
        {
            let mv = tops[i3];
            let val = vals[i3];
            if bestmv.is_none() || bestsc.lt(val) {
                bestmv = Some(mv);
                bestsc = val;
            }
            proof {
                assert(top.take(i3 as int + 1).drop_last() =~= top.take(i3 as int));
                assert(top.take(i3 as int + 1).last() == top[i3 as int]);
                let dr_i = spec_deep_results(
                    &self.score,
                    &self.filter_score,
                    self.culling as int,
                    m,
                    top.take(i3 as int),
                    recursion as int,
                );
                lemma_deep_results_len(
                    &self.score,
                    &self.filter_score,
                    self.culling as int,
                    m,
                    top.take(i3 as int),
                    recursion as int,
                );
                let pair = (
                    top[i3 as int].0,
                    spec_deep_score(
                        &self.score,
                        &self.filter_score,
                        self.culling as int,
                        m,
                        top[i3 as int].0,
                        recursion as int,
                    ),
                );
                assert(spec_deep_results(
                    &self.score,
                    &self.filter_score,
                    self.culling as int,
                    m,
                    top.take(i3 as int + 1),
                    recursion as int,
                ) == dr_i + seq![pair]);
                assert((dr_i + seq![pair]).drop_last() =~= dr_i);
                assert((dr_i + seq![pair]).last() == pair);
            }
            i3 = i3 + 1;
        }
        proof {
            assert(top.take(cut as int) =~= top);
        }
        (bestmv, bestsc)
    }

    /// The deep-pass evaluation a parallel worker runs on its private clone.
    pub(crate) fn deep_eval_par(&self, board: &mut Board, mv: Move, recursion: u32) -> (r: Score)
        requires
            self.wf(),
            old(board).inv(),
            old(board)@.won is None,
            do_move_ok(old(board)@, mv),
            1 <= recursion <= 100000,
        ensures
            final(board)@ == old(board)@,
            r == spec_deep_score(
                &self.score,
                &self.filter_score,
                self.culling as int,
                old(board)@,
                mv,
                recursion as int,
            ),
    {
        let ghost m = board@;
        let want = board.current_player;
        let _ = board.do_move(mv);
        let r = match board.won {
            Some(w) => if w == want {
                Score(ScoreThing::Max, recursion as i32)
            } else {
                Score(ScoreThing::Min, recursion as i32)
            },
            None => {
                let sub = self.do_minmax(board, recursion - 1);
                let big = sub.1.0;
                let small = sub.1.1;
                Score(
                    big.invert(),
                    if small == i32::MIN {
                        small
                    } else {
                        -small
                    },
                )
            },
        };
        board.undo_move();
        proof {
            lemma_do_undo_round_trip(m, mv);
        }
        r
    }
}

impl<T: ScoringFunction + Send + Sync, Q: ScoringFunction + Send + Sync> ScoringFunction for MinMax<
    T,
    Q,
> {
    open spec fn valid(&self) -> bool {
        self.wf()
    }

    open spec fn spec_score(&self, m: BoardModel) -> Score {
        spec_minmax(&self.score, &self.filter_score, self.culling as int, m, self.depth as int).1
    }

    fn score(&self, board: &mut Board) -> (r: Score) {
        self.do_minmax(board, self.depth).1
    }
}

impl<T: ScoringFunction + Send + Sync, Q: ScoringFunction + Send + Sync> Ai for MinMax<T, Q> {
    open spec fn valid(&self) -> bool {
        self.wf()
    }

    open spec fn spec_pick(&self, m: BoardModel) -> Option<Move> {
        spec_minmax(&self.score, &self.filter_score, self.culling as int, m, self.depth as int).0
    }

    fn requires_user_output(&self) -> bool {
        false
    }

    fn name(&self) -> &str {
        "Min max"
    }

    fn pick_move(&self, board: &mut Board) -> (r: Option<Move>) {
        self.do_minmax(board, self.depth).0
    }
}

/// A guaranteed one-move win is taken at once: whenever some candidate
/// completes a win for the side to move, the search returns the
/// short-circuit score, at every depth of at least one.
pub proof fn lemma_one_move_win_shortcircuit<T: ScoringFunction, Q: ScoringFunction>(
    t: &T,
    q: &Q,
    culling: int,
    m: BoardModel,
    recursion: int,
    i: int,
)
    requires
        recursion >= 1,
        0 <= i < spec_candidates(m).len(),
        move_winner(m, spec_candidates(m)[i]) == Some(m.current),
    ensures
        spec_minmax(t, q, culling, m, recursion).1 == Score(ScoreThing::Max, 0),
{
    let cands = spec_candidates(m);
    let cls = spec_classified(q, m);
    assert(cls[i].1 == ScoreThing::Max);
    lemma_sort_desc_first(cls);
    let sorted = spec_sort_desc(cls);
    assert(cls[i].1.spec_le(sorted[0].1));
    assert(sorted[0].1 == ScoreThing::Max);
}

/// The selection rule of the deep pass: the returned pair is one of the
/// results, and no listed result scores strictly better than it.
pub proof fn lemma_spec_best_max(s: Seq<(Move, Score)>)
    requires
        s.len() > 0,
    ensures
        exists|j: int| 0 <= j < s.len() && spec_best(s) == (Some(#[trigger] s[j].0), s[j].1),
        forall|i: int| 0 <= i < s.len() ==> (#[trigger] s[i].1).spec_le(spec_best(s).1),
    decreases s.len(),
{
    if s.len() == 1 {
        assert(spec_best(s) == (Some(s[0].0), s[0].1));
    } else {
        lemma_spec_best_max(s.drop_last());
        let prev = spec_best(s.drop_last());
        let jp = choose|j: int|
            0 <= j < s.drop_last().len() && prev == (Some(#[trigger] s.drop_last()[j].0), s
                .drop_last()[j].1);
        assert(s.drop_last()[jp] == s[jp]);
        if prev.1.spec_lt(s.last().1) {
            assert(spec_best(s) == (Some(s[s.len() - 1].0), s[s.len() - 1].1));
            assert forall|i: int| 0 <= i < s.len() implies (#[trigger] s[i].1).spec_le(
                spec_best(s).1,
            ) by {
                if i < s.len() - 1 {
                    assert(s.drop_last()[i] == s[i]);
                    crate::score::lemma_score_total_order(s[i].1, prev.1, s.last().1);
                }
            }
        } else {
            assert(spec_best(s) == (Some(s[jp].0), s[jp].1));
            assert forall|i: int| 0 <= i < s.len() implies (#[trigger] s[i].1).spec_le(
                spec_best(s).1,
            ) by {
                if i < s.len() - 1 {
                    assert(s.drop_last()[i] == s[i]);
                } else {
                    crate::score::lemma_score_total_order(s.last().1, prev.1, prev.1);
                }
            }
        }
    }
}

/// Insertion loses nothing: the new pair and every old pair are in the result.
pub proof fn lemma_insert_desc_contains_input(x: (Move, ScoreThing), s: Seq<(Move, ScoreThing)>)
    ensures
        spec_insert_desc(x, s).contains(x),
        forall|i: int| 0 <= i < s.len() ==> spec_insert_desc(x, s).contains(#[trigger] s[i]),
    decreases s.len(),
{
    let r = spec_insert_desc(x, s);
    if s.len() == 0 {
        assert(r[0] == x);
    } else if x.1.spec_le(s[0].1) {
        lemma_insert_desc_contains_input(x, s.drop_first());
        let rt = spec_insert_desc(x, s.drop_first());
        let jx = choose|jx: int| 0 <= jx < rt.len() && rt[jx] == x;
        assert(r[jx + 1] == x);
        assert forall|i: int| 0 <= i < s.len() implies r.contains(#[trigger] s[i]) by {
            if i == 0 {
                assert(r[0] == s[0]);
            } else {
                assert(s.drop_first()[i - 1] == s[i]);
                assert(rt.contains(s[i]));
                let ji = choose|ji: int| 0 <= ji < rt.len() && rt[ji] == s[i];
                assert(r[ji + 1] == s[i]);
            }
        }
    } else {
        assert(r[0] == x);
        assert forall|i: int| 0 <= i < s.len() implies r.contains(#[trigger] s[i]) by {
            assert(r[i + 1] == s[i]);
        }
    }
}

/// Sorting loses nothing: every candidate pair is in the sorted list.
pub proof fn lemma_sort_desc_contains_input(s: Seq<(Move, ScoreThing)>)
    ensures
        forall|i: int| 0 <= i < s.len() ==> spec_sort_desc(s).contains(#[trigger] s[i]),
    decreases s.len(),
{
    if s.len() > 0 {
        lemma_sort_desc_contains_input(s.drop_last());
        lemma_insert_desc_contains_input(s.last(), spec_sort_desc(s.drop_last()));
        assert forall|i: int| 0 <= i < s.len() implies spec_sort_desc(s).contains(
            #[trigger] s[i],
        ) by {
            if i < s.len() - 1 {
                assert(s.drop_last()[i] == s[i]);
                assert(spec_sort_desc(s.drop_last()).contains(s[i]));
                let j = choose|j: int|
                    0 <= j < spec_sort_desc(s.drop_last()).len() && spec_sort_desc(s.drop_last())[j]
                        == s[i];
                lemma_insert_desc_contains_input(s.last(), spec_sort_desc(s.drop_last()));
            } else {
                assert(s[i] == s.last());
            }
        }
    }
}

/// Each slot of the deep-pass results pairs its candidate with that
/// candidate's deep value.
pub proof fn lemma_deep_results_index<T: ScoringFunction, Q: ScoringFunction>(
    t: &T,
    q: &Q,
    culling: int,
    m: BoardModel,
    top: Seq<(Move, ScoreThing)>,
    recursion: int,
)
    ensures
        spec_deep_results(t, q, culling, m, top, recursion).len() == top.len(),
        forall|i: int|
            0 <= i < top.len() ==> #[trigger] spec_deep_results(t, q, culling, m, top, recursion)[i]
                == (top[i].0, spec_deep_score(t, q, culling, m, top[i].0, recursion)),
    decreases top.len(),
{
    if top.len() > 0 {
        lemma_deep_results_index(t, q, culling, m, top.drop_last(), recursion);
        assert forall|i: int|
            0 <= i < top.len() implies #[trigger] spec_deep_results(
            t,
            q,
            culling,
            m,
            top,
            recursion,
        )[i] == (top[i].0, spec_deep_score(t, q, culling, m, top[i].0, recursion)) by {
            if i < top.len() - 1 {
                assert(top.drop_last()[i] == top[i]);
                assert(spec_deep_results(t, q, culling, m, top, recursion)[i]
                    == spec_deep_results(t, q, culling, m, top.drop_last(), recursion)[i]);
            }
        }
    }
}

/// On a board searched at depth two or more, with a cutoff wide enough to
/// keep every candidate, the search never recommends a move whose refutation
/// its own reply search can see — in particular, no move that hands the
/// opponent an immediate win — as long as some candidate has no visible
/// refutation. The shallow scorer must never report a forced loss on a live
/// position, which the raw heuristic never does.
pub proof fn lemma_search_avoids_refuted_moves<T: ScoringFunction, Q: ScoringFunction>(
    t: &T,
    q: &Q,
    culling: int,
    m: BoardModel,
    recursion: int,
    j: int,
)
    requires
        m.wf(),
        recursion >= 2,
        culling >= spec_candidates(m).len(),
        forall|s: BoardModel| s.won is None ==> (#[trigger] q.spec_score(s)).0 != ScoreThing::Min,
        0 <= j < spec_candidates(m).len(),
        do_move_state(m, spec_candidates(m)[j]).won is None,
        spec_minmax(t, q, culling, do_move_state(m, spec_candidates(m)[j]), recursion - 1).1.0
            != ScoreThing::Max,
    ensures
        spec_minmax(t, q, culling, m, recursion).0 is Some,
        ({
            let chosen = spec_minmax(t, q, culling, m, recursion).0.unwrap();
            let m2 = do_move_state(m, chosen);
            m2.won is None ==> {
                &&& spec_minmax(t, q, culling, m2, recursion - 1).1.0 != ScoreThing::Max
                &&& forall|k: int|
                    0 <= k < spec_candidates(m2).len() ==> move_winner(
                        m2,
                        #[trigger] spec_candidates(m2)[k],
                    ) is None
            }
        }),
{
    let cands = spec_candidates(m);
    let cls = spec_classified(q, m);
    let sorted = spec_sort_desc(cls);
    lemma_frontier_moves_ok(m.grid, m.size, m.current, m.size);
    lemma_sort_desc_len(cls);
    lemma_sort_desc_elems(cls);
    lemma_sort_desc_contains_input(cls);
    assert(cands.len() > 0);
    if sorted[0].1 == ScoreThing::Max {
        // the short-circuit path: the chosen candidate classifies as a
        // guaranteed win, which on a live resulting position would need the
        // shallow scorer to report a forced loss
        assert(cls.contains(sorted[0]));
        let i0 = choose|i0: int| 0 <= i0 < cls.len() && cls[i0] == sorted[0];
        let mv0 = cands[i0];
        assert(cls[i0] == (mv0, spec_classify(q, m, mv0)));
        let m20 = do_move_state(m, mv0);
        if m20.won is None {
            assert(spec_classify(q, m, mv0) == q.spec_score(m20).0.spec_invert());
            assert(q.spec_score(m20).0 != ScoreThing::Min);
            assert(q.spec_score(m20).0.spec_invert() != ScoreThing::Max);
            assert(false);
        }
        assert(spec_minmax(t, q, culling, m, recursion).0 == Some(mv0));
    } else {
        let cut: int = if culling <= 0 {
            0int
        } else if culling < sorted.len() {
            culling
        } else {
            sorted.len() as int
        };
        assert(cut == sorted.len());
        let top = sorted.take(cut);
        assert(top =~= sorted);
        let results = spec_deep_results(t, q, culling, m, top, recursion);
        lemma_deep_results_index(t, q, culling, m, top, recursion);
        lemma_spec_best_max(results);
        let best = spec_best(results);
        assert(spec_minmax(t, q, culling, m, recursion) == best);
        let jb = choose|jb: int|
            0 <= jb < results.len() && best == (Some(#[trigger] results[jb].0), results[jb].1);
        let chosen = top[jb].0;
        assert(best.0 == Some(chosen));
        assert(best.1 == spec_deep_score(t, q, culling, m, chosen, recursion));
        // the safe candidate's deep value is no forced loss, so neither is
        // the best
        let y = cands[j];
        assert(cls[j] == (y, spec_classify(q, m, y)));
        assert(sorted.contains(cls[j]));
        let jj = choose|jj: int| 0 <= jj < sorted.len() && sorted[jj] == cls[j];
        assert(results[jj] == (y, spec_deep_score(t, q, culling, m, y, recursion)));
        let m2y = do_move_state(m, y);
        let suby = spec_minmax(t, q, culling, m2y, recursion - 1).1;
        assert(spec_deep_score(t, q, culling, m, y, recursion).0 == suby.0.spec_invert());
        assert(suby.0.spec_invert() != ScoreThing::Min);
        assert(results[jj].1.spec_le(best.1));
        assert(best.1.0 != ScoreThing::Min);
        let m2 = do_move_state(m, chosen);
        if m2.won is None {
            let sub = spec_minmax(t, q, culling, m2, recursion - 1).1;
            assert(best.1.0 == sub.0.spec_invert());
            if sub.0 == ScoreThing::Max {
                assert(best.1.0 == ScoreThing::Min);
                assert(false);
            }
            // with no visible refutation, in particular no candidate of the
            // reply position wins at once
            assert(cls.contains(sorted[jb]));
            let ic = choose|ic: int| 0 <= ic < cls.len() && cls[ic] == sorted[jb];
            assert(chosen == cands[ic]);
            assert(in_range(m.size, chosen.pos.x as int, chosen.pos.y as int));
            assert(grid_wf(m2.grid, m2.size)) by {
                assert(m2.grid.len() == m.grid.len());
                assert forall|yy: int| 0 <= yy < m2.size implies (#[trigger] m2.grid[yy]).len()
                    == m2.size by {
                    assert(m.grid[yy].len() == m.size);
                }
            }
            assert(m2.wf());
            lemma_frontier_moves_ok(m2.grid, m2.size, m2.current, m2.size);
            assert forall|k: int| 0 <= k < spec_candidates(m2).len() implies move_winner(
                m2,
                #[trigger] spec_candidates(m2)[k],
            ) is None by {
                let z = spec_candidates(m2)[k];
                if move_winner(m2, z) is Some {
                    assert(frontier_cell(m2.grid, m2.size, z.pos.x as int, z.pos.y as int));
                    assert(z.player == m2.current);
                    assert(move_winner(m2, z) == Some(m2.current));
                    lemma_one_move_win_shortcircuit(t, q, culling, m2, recursion - 1, k);
                    assert(false);
                }
            }
        }
    }
}

} // verus!
