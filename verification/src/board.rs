//! The board: the grid, the move/undo protocol, incremental scoring, threat
//! counting, win detection, and the frontier move generator.
use vstd::prelude::*;
use crate::Player;
use crate::scoring::{
    GridModel, cell, grid_wf, in_range, dir_ok, count_line, window_on_board, window_win,
    total_score, total_threats, through_score, through_threats, wins_through, contrib_fn,
    threat_fn, sum_ray, sum_grid, sum_row, count_seg, lemma_empty_grid, lemma_score_shift,
    lemma_score_bounds, lemma_sum_grid_bound, lemma_sum_row_bound, window_contrib,
    lemma_count_line_full, lemma_count_line_bounds, lemma_count_seg_bounds,
    lemma_count_seg_shrink_lo,
    lemma_count_line_as_seg, lemma_count_line_pair, lemma_ray_partial_bounds,
    lemma_window_cell_in_range, lemma_oob_through, lemma_wins_through_owner,
};

verus! {

/// The default board edge length.
pub const WORLD_SIZE: usize = 16;

/// The default number of colinear stones that win the game.
pub const WIN_LENGTH: usize = 5;

/// An integer 2-D coordinate; the board occupies `[0, size)` on both axes.
#[derive(Debug, Clone, Copy, PartialEq, Eq, Structural, Hash)]
pub struct Pos {
    pub x: i32,
    pub y: i32,
}

/// A stone placement: a position plus the player placing the stone.
#[derive(Debug, Clone, Copy, PartialEq, Eq, Structural, Hash)]
pub struct Move {
    pub pos: Pos,
    pub player: Player,
}

/// A tile of the grid: empty, or occupied by one player.
pub type Tile = Option<Player>;

/// Why `do_move` rejected a move.
#[derive(Debug, Clone, Copy, PartialEq, Eq, Structural)]
pub enum BoardError {
    AlreadyWon,
    Occupied,
    OutOfBounds,
}

/// The abstract state of a board, over which all contracts speak.
#[verifier::ext_equal]
pub ghost struct BoardModel {
    pub size: int,
    pub win: int,
    pub grid: GridModel,
    pub current: Player,
    pub moves: Seq<Move>,
    pub score: int,
    pub score_stack: Seq<int>,
    pub won: Option<Player>,
    pub a_threats: int,
    pub b_threats: int,
}

/// The grid with the tile at (x, y) replaced.
pub open spec fn set_cell(g: GridModel, x: int, y: int, t: Tile) -> GridModel {
    g.update(y, g[y].update(x, t))
}

/// The stack discipline of the move history: each recorded move sits on the
/// grid, and popping it yields a grid whose full recomputed score is exactly
/// the recorded pre-move score.
pub open spec fn unwind(g: GridModel, size: int, win: int, moves: Seq<Move>, stack: Seq<int>) -> bool
    decreases moves.len(),
{
    &&& moves.len() == stack.len()
    &&& (moves.len() > 0 ==> {
        let mv = moves.last();
        let g2 = set_cell(g, mv.pos.x as int, mv.pos.y as int, None);
        &&& in_range(size, mv.pos.x as int, mv.pos.y as int)
        &&& cell(g, mv.pos.x as int, mv.pos.y as int) == Some(mv.player)
        &&& stack.last() == total_score(g2, size, win)
        &&& unwind(g2, size, win, moves.drop_last(), stack.drop_last())
    })
}

impl BoardModel {
    /// Shape well-formedness: a square grid of a lawful size.
    pub open spec fn wf(self) -> bool {
        &&& 2 <= self.win <= self.size <= 36
        &&& grid_wf(self.grid, self.size)
    }

    /// The board invariant: the running score and threat counters always equal
    /// the full recomputation over the grid, the side to move alternates with
    /// the history length, and the history unwinds move by move.
    pub open spec fn inv(self) -> bool {
        &&& self.wf()
        &&& self.score == total_score(self.grid, self.size, self.win)
        &&& self.a_threats == total_threats(self.grid, self.size, self.win, Player::A)
        &&& self.b_threats == total_threats(self.grid, self.size, self.win, Player::B)
        &&& self.current == (if self.moves.len() % 2 == 0 {
            Player::A
        } else {
            Player::B
        })
        &&& unwind(self.grid, self.size, self.win, self.moves, self.score_stack)
    }
}

/// The mutable board: the grid plus the bookkeeping that the do/undo protocol
/// maintains incrementally.
#[derive(Clone)]
pub struct Board {
    /// The tiles, indexed row by row: `grid[y][x]`. Mutated only through the
    /// do/undo protocol.
    pub grid: Vec<Vec<Tile>>,
    /// Edge length of the square grid.
    pub size: usize,
    /// Number of colinear stones that complete a win.
    pub win_length: usize,
    /// Whose turn it is; flips on every committed move.
    pub current_player: Player,
    /// History of committed moves, a stack.
    pub moves: Vec<Move>,
    /// Running incremental score of the whole board; positive favors A.
    pub score: i32,
    /// The score before each committed move, for restoring on undo.
    pub score_stack: Vec<i32>,
    /// The winner, once a move completes a line; blocks further moves.
    pub won: Option<Player>,
    /// How many windows are one stone short of a win for A.
    pub player_a_one_left: i32,
    /// How many windows are one stone short of a win for B.
    pub player_b_one_left: i32,
}

impl View for Board {
    type V = BoardModel;

    open spec fn view(&self) -> BoardModel {
        BoardModel {
            size: self.size as int,
            win: self.win_length as int,
            grid: self.grid@.map_values(|row: Vec<Tile>| row@),
            current: self.current_player,
            moves: self.moves@,
            score: self.score as int,
            score_stack: self.score_stack@.map_values(|v: i32| v as int),
            won: self.won,
            a_threats: self.player_a_one_left as int,
            b_threats: self.player_b_one_left as int,
        }
    }
}

impl Board {
    pub open spec fn wf(&self) -> bool {
        self@.wf()
    }

    pub open spec fn inv(&self) -> bool {
        self@.inv()
    }

    /// An empty board of the given dimensions, side A to move.
    pub fn with_config(size: usize, win_length: usize) -> (r: Board)
        requires
            2 <= win_length <= size <= 36,
        ensures
            r.inv(),
            r@.size == size as int,
            r@.win == win_length as int,
            r@.current == Player::A,
            r@.moves === Seq::<Move>::empty(),
            r@.score_stack === Seq::<int>::empty(),
            r@.won is None,
            r@.score == 0,
            r@.a_threats == 0,
            r@.b_threats == 0,
            forall|x: int, y: int| #[trigger] cell(r@.grid, x, y) is None,
    {
        let mut grid: Vec<Vec<Tile>> = Vec::new();
        let mut y: usize = 0;
        while y < size
            invariant
                y <= size,
                grid@.len() == y as int,
                forall|j: int| 0 <= j < y as int ==> (#[trigger] grid@[j])@.len() == size as int,
                forall|j: int, i: int|
                    0 <= j < y as int && 0 <= i < size as int ==> #[trigger] grid@[j]@[i] is None,
            decreases size - y,
        {
            let mut row: Vec<Tile> = Vec::new();
            let mut x: usize = 0;
            while x < size
                invariant
                    x <= size,
                    row@.len() == x as int,
                    forall|i: int| 0 <= i < x as int ==> row@[i] is None,
                decreases size - x,
            {
                row.push(None);
                x = x + 1;
            }
            grid.push(row);
            y = y + 1;
        }
        let r = Board {
            grid,
            size,
            win_length,
            current_player: Player::A,
            moves: Vec::new(),
            score: 0,
            score_stack: Vec::new(),
            won: None,
            player_a_one_left: 0,
            player_b_one_left: 0,
        };
        proof {
            assert forall|x: int, y2: int| #[trigger] cell(r@.grid, x, y2) is None by {
                if 0 <= y2 < r@.grid.len() && 0 <= x < r@.grid[y2].len() {
                    assert(r@.grid[y2] == grid@[y2]@);
                }
            }
            lemma_empty_grid(r@.grid, size as int, win_length as int);
        }
        r
    }

    /// An empty board of the default dimensions.
    pub fn new() -> (r: Board)
        ensures
            r.inv(),
            r@.size == 16,
            r@.win == 5,
            r@.current == Player::A,
            r@.moves === Seq::<Move>::empty(),
            r@.won is None,
            r@.score == 0,
            forall|x: int, y: int| #[trigger] cell(r@.grid, x, y) is None,
    {
        Board::with_config(WORLD_SIZE, WIN_LENGTH)
    }

    /// Reads one tile: `None` off the board, otherwise the tile.
    pub fn get(&self, pos: Pos) -> (r: Option<Tile>)
        requires
            self.wf(),
        ensures
            r == (if in_range(self@.size, pos.x as int, pos.y as int) {
                Some(cell(self@.grid, pos.x as int, pos.y as int))
            } else {
                None::<Tile>
            }),
    {
        if pos.x >= 0 && pos.y >= 0 && (pos.x as usize) < self.size && (pos.y as usize) < self.size {
            let r = self.grid[pos.y as usize][pos.x as usize];
            proof {
                assert(self@.grid[pos.y as int] == self.grid@[pos.y as int]@);
            }
            Some(r)
        } else {
            None
        }
    }

    /// Writes one tile; the position must be on the board.
    fn set(&mut self, pos: Pos, tile: Tile)
        requires
            old(self).wf(),
            in_range(old(self)@.size, pos.x as int, pos.y as int),
        ensures
            final(self)@ == (BoardModel {
                grid: set_cell(old(self)@.grid, pos.x as int, pos.y as int, tile),
                ..old(self)@
            }),
            final(self).wf(),
    {
        let x = pos.x as usize;
        let y = pos.y as usize;
        proof {
            assert(self@.grid[y as int] == self.grid@[y as int]@);
        }
        self.grid[y][x] = tile;
        proof {
            assert(self@.grid =~= set_cell(old(self)@.grid, pos.x as int, pos.y as int, tile));
            assert(self@ =~= BoardModel {
                grid: set_cell(old(self)@.grid, pos.x as int, pos.y as int, tile),
                ..old(self)@
            });
        }
    }
}

impl Board {
    /// Scans the fan of `win` windows through `pos` in one orientation with a
    /// sliding span: each step admits the entering cell and drops the leaving
    /// cell instead of rescanning the line. Returns the summed contribution of
    /// those windows, the threat windows found for each player, and a winner
    /// if some window is complete.
    #[verifier::loop_isolation(false)]
    #[verifier::rlimit(100)]
    fn pos_directional_score(&self, pos: Pos, dx: i32, dy: i32) -> (r: (
        i32,
        i32,
        i32,
        Option<Player>,
    ))
        requires
            self.wf(),
            dir_ok(dx as int, dy as int),
            in_range(self@.size, pos.x as int, pos.y as int),
        ensures
            r.0 == sum_ray(
                contrib_fn(self@.grid, self@.size, self@.win, dx as int, dy as int),
                pos.x as int,
                pos.y as int,
                dx as int,
                dy as int,
                self@.win,
            ),
            r.1 == sum_ray(
                threat_fn(self@.grid, self@.size, self@.win, dx as int, dy as int, Player::A),
                pos.x as int,
                pos.y as int,
                dx as int,
                dy as int,
                self@.win,
            ),
            r.2 == sum_ray(
                threat_fn(self@.grid, self@.size, self@.win, dx as int, dy as int, Player::B),
                pos.x as int,
                pos.y as int,
                dx as int,
                dy as int,
                self@.win,
            ),
            (match r.3 {
                Some(p) => exists|k: int|
                    0 <= k < self@.win && #[trigger] window_win(
                        self@.grid,
                        self@.size,
                        self@.win,
                        pos.x as int - dx as int * k,
                        pos.y as int - dy as int * k,
                        dx as int,
                        dy as int,
                        p,
                    ),
                None => forall|k: int, p: Player|
                    0 <= k < self@.win ==> !(#[trigger] window_win(
                        self@.grid,
                        self@.size,
                        self@.win,
                        pos.x as int - dx as int * k,
                        pos.y as int - dy as int * k,
                        dx as int,
                        dy as int,
                        p,
                    )),
            }),
    {
        let ghost g = self@.grid;
        let ghost size = self@.size;
        let ghost winl = self@.win;
        let ghost px = pos.x as int;
        let ghost py = pos.y as int;
        let ghost dxi = dx as int;
        let ghost dyi = dy as int;
        let ghost cf = contrib_fn(g, size, winl, dxi, dyi);
        let ghost tfa = threat_fn(g, size, winl, dxi, dyi, Player::A);
        let ghost tfb = threat_fn(g, size, winl, dxi, dyi, Player::B);
        proof {
            lemma_ray_partial_bounds(g, size, winl, px, py, dxi, dyi, Player::A);
            lemma_ray_partial_bounds(g, size, winl, px, py, dxi, dyi, Player::B);
        }
        let win: i32 = self.win_length as i32;
        let size_e: i32 = self.size as i32;
        let mut a: i32 = 0;
        let mut b: i32 = 0;
        let mut score: i32 = 0;
        let mut ta: i32 = 0;
        let mut tb: i32 = 0;
        let mut winner: Option<Player> = None;

        let mut m: i32 = 1 - win;
        while m < 0
            invariant
                1 - win <= m <= 0,
                a == count_seg(g, px, py, dxi, dyi, 1 - winl, m as int, Player::A),
                b == count_seg(g, px, py, dxi, dyi, 1 - winl, m as int, Player::B),
            decreases 0 - m,
        {
            proof {
                lemma_count_seg_bounds(g, px, py, dxi, dyi, 1 - winl, m as int, Player::A);
                lemma_count_seg_bounds(g, px, py, dxi, dyi, 1 - winl, m as int, Player::B);
                assert(-36 <= dxi * (m as int) <= 36 && -36 <= dyi * (m as int)
                    <= 36) by (nonlinear_arith)
                    requires
                        dir_ok(dxi, dyi),
                        -36 <= m as int,
                        m as int <= 36,
                ;
            }
            match self.get(Pos { x: pos.x + dx * m, y: pos.y + dy * m }) {
                Some(Some(Player::A)) => {
                    a = a + 1;
                },
                Some(Some(Player::B)) => {
                    b = b + 1;
                },
                _ => {},
            }
            m = m + 1;
        }
        let mut t: i32 = 0;
        while t < win
            invariant
                0 <= t <= win,
                a == count_seg(g, px, py, dxi, dyi, t as int - winl + 1, t as int, Player::A),
                b == count_seg(g, px, py, dxi, dyi, t as int - winl + 1, t as int, Player::B),
                score as int == sum_ray(cf, px, py, dxi, dyi, winl) - sum_ray(
                    cf,
                    px,
                    py,
                    dxi,
                    dyi,
                    winl - t as int,
                ),
                ta as int == sum_ray(tfa, px, py, dxi, dyi, winl) - sum_ray(
                    tfa,
                    px,
                    py,
                    dxi,
                    dyi,
                    winl - t as int,
                ),
                tb as int == sum_ray(tfb, px, py, dxi, dyi, winl) - sum_ray(
                    tfb,
                    px,
                    py,
                    dxi,
                    dyi,
                    winl - t as int,
                ),
                (match winner {
                    Some(p) => exists|k: int|
                        winl - t as int <= k < winl && #[trigger] window_win(
                            g,
                            size,
                            winl,
                            px - dxi * k,
                            py - dyi * k,
                            dxi,
                            dyi,
                            p,
                        ),
                    None => forall|k: int, p: Player|
                        winl - t as int <= k < winl ==> !(#[trigger] window_win(
                            g,
                            size,
                            winl,
                            px - dxi * k,
                            py - dyi * k,
                            dxi,
                            dyi,
                            p,
                        )),
                }),
            decreases win - t,
        {
            let ghost k = winl - 1 - t as int;
            proof {
                lemma_count_seg_bounds(g, px, py, dxi, dyi, t as int - winl + 1, t as int, Player::A);
                lemma_count_seg_bounds(g, px, py, dxi, dyi, t as int - winl + 1, t as int, Player::B);
                assert(-36 <= dxi * (t as int) <= 36 && -36 <= dyi * (t as int) <= 36 && -36 <= dxi
                    * (t as int - winl + 1) <= 36 && -36 <= dyi * (t as int - winl + 1)
                    <= 36) by (nonlinear_arith)
                    requires
                        dir_ok(dxi, dyi),
                        0 <= t as int,
                        (t as int) < winl,
                        winl <= 36,
                ;
                assert(dxi * (t as int - winl + 1) == 0 - dxi * k && dyi * (t as int - winl + 1)
                    == 0 - dyi * k && dxi * (t as int) == dxi * (t as int - winl + 1) + dxi * (winl
                    - 1) && dyi * (t as int) == dyi * (t as int - winl + 1) + dyi * (winl
                    - 1)) by (nonlinear_arith)
                    requires
                        k == winl - 1 - t as int,
                ;
            }
            match self.get(Pos { x: pos.x + dx * t, y: pos.y + dy * t }) {
                Some(Some(Player::A)) => {
                    a = a + 1;
                },
                Some(Some(Player::B)) => {
                    b = b + 1;
                },
                _ => {},
            }
            let sx = pos.x + dx * (t - win + 1);
            let sy = pos.y + dy * (t - win + 1);
            let ex = pos.x + dx * t;
            let ey = pos.y + dy * t;
            let on_board = 0 <= sx && sx < size_e && 0 <= sy && sy < size_e && 0 <= ex && ex
                < size_e && 0 <= ey && ey < size_e;
            proof {
                assert(a == count_seg(g, px, py, dxi, dyi, t as int - winl + 1, t as int + 1, Player::A));
                assert(b == count_seg(g, px, py, dxi, dyi, t as int - winl + 1, t as int + 1, Player::B));
                lemma_count_line_as_seg(g, px, py, dxi, dyi, k, winl, Player::A);
                lemma_count_line_as_seg(g, px, py, dxi, dyi, k, winl, Player::B);
                assert(count_line(g, px - dxi * k, py - dyi * k, dxi, dyi, winl, Player::A)
                    == a as int);
                assert(count_line(g, px - dxi * k, py - dyi * k, dxi, dyi, winl, Player::B)
                    == b as int);
                assert(on_board == window_on_board(size, winl, px - dxi * k, py - dyi * k, dxi, dyi));
                lemma_count_line_pair(g, px - dxi * k, py - dyi * k, dxi, dyi, winl);
                assert(sum_ray(cf, px, py, dxi, dyi, winl - t as int) == sum_ray(
                    cf,
                    px,
                    py,
                    dxi,
                    dyi,
                    winl - t as int - 1,
                ) + cf(px - dxi * k, py - dyi * k));
                assert(sum_ray(tfa, px, py, dxi, dyi, winl - t as int) == sum_ray(
                    tfa,
                    px,
                    py,
                    dxi,
                    dyi,
                    winl - t as int - 1,
                ) + tfa(px - dxi * k, py - dyi * k));
                assert(sum_ray(tfb, px, py, dxi, dyi, winl - t as int) == sum_ray(
                    tfb,
                    px,
                    py,
                    dxi,
                    dyi,
                    winl - t as int - 1,
                ) + tfb(px - dxi * k, py - dyi * k));
                assert(0 <= a as int <= winl && 0 <= b as int <= winl);
                assert(a * a <= 1296 && a * a >= 0 && b * b <= 1296 && b * b
                    >= 0) by (nonlinear_arith)
                    requires
                        0 <= a as int <= 36,
                        0 <= b as int <= 36,
                ;
                assert(window_win(g, size, winl, px - dxi * k, py - dyi * k, dxi, dyi, Player::A)
                    == (on_board && a as int == winl));
                assert(window_win(g, size, winl, px - dxi * k, py - dyi * k, dxi, dyi, Player::B)
                    == (on_board && b as int == winl));
                assert(tfa(px - dxi * k, py - dyi * k) == (if on_board && a as int == winl - 1
                    && b == 0 {
                    1int
                } else {
                    0int
                }));
                assert(tfb(px - dxi * k, py - dyi * k) == (if on_board && b as int == winl - 1
                    && a == 0 {
                    1int
                } else {
                    0int
                }));
                assert(cf(px - dxi * k, py - dyi * k) == (if on_board && a > 0 && b == 0 && (
                a as int) < winl {
                    a * a
                } else if on_board && b > 0 && a == 0 && (b as int) < winl {
                    0 - b * b
                } else {
                    0int
                }));
                assert(winl - (t as int) - 1 <= k < winl);
            }
            if on_board {
                if a > 0 && b == 0 {
                    if a == win {
                        winner = Some(Player::A);
                    } else {
                        if a == win - 1 {
                            ta = ta + 1;
                        }
                        score = score + a * a;
                    }
                } else if b > 0 && a == 0 {
                    if b == win {
                        winner = Some(Player::B);
                    } else {
                        if b == win - 1 {
                            tb = tb + 1;
                        }
                        score = score - b * b;
                    }
                }
            }
            proof {
                lemma_count_seg_shrink_lo(g, px, py, dxi, dyi, t as int - winl + 1, t as int + 1, Player::A);
                lemma_count_seg_shrink_lo(g, px, py, dxi, dyi, t as int - winl + 1, t as int + 1, Player::B);
            }
            match self.get(Pos { x: sx, y: sy }) {
                Some(Some(Player::A)) => {
                    a = a - 1;
                },
                Some(Some(Player::B)) => {
                    b = b - 1;
                },
                _ => {},
            }
            t = t + 1;
        }
        (score, ta, tb, winner)
    }

    /// The contribution, threat windows, and any completed win over the four
    /// window fans through `pos`, summed with a sliding scan per orientation.
    /// A position off the board has no on-board window through it.
    pub fn score_for_position(&self, pos: Pos) -> (r: (i32, i32, i32, Option<Player>))
        requires
            self.wf(),
        ensures
            r.0 == through_score(self@.grid, self@.size, self@.win, pos.x as int, pos.y as int),
            r.1 == through_threats(
                self@.grid,
                self@.size,
                self@.win,
                pos.x as int,
                pos.y as int,
                Player::A,
            ),
            r.2 == through_threats(
                self@.grid,
                self@.size,
                self@.win,
                pos.x as int,
                pos.y as int,
                Player::B,
            ),
            (match r.3 {
                Some(p) => wins_through(
                    self@.grid,
                    self@.size,
                    self@.win,
                    pos.x as int,
                    pos.y as int,
                    p,
                ),
                None => forall|p: Player|
                    !wins_through(self@.grid, self@.size, self@.win, pos.x as int, pos.y as int, p),
            }),
    {
        let ghost g = self@.grid;
        let ghost size = self@.size;
        let ghost winl = self@.win;
        let ghost px = pos.x as int;
        let ghost py = pos.y as int;
        if pos.x < 0 || pos.y < 0 || pos.x >= self.size as i32 || pos.y >= self.size as i32 {
            proof {
                lemma_oob_through(g, size, winl, px, py);
            }
            return (0, 0, 0, None);
        }
        let (s0, a0, b0, w0) = self.pos_directional_score(pos, 0, 1);
        let (s1, a1, b1, w1) = self.pos_directional_score(pos, 1, 1);
        let (s2, a2, b2, w2) = self.pos_directional_score(pos, -1, 1);
        let (s3, a3, b3, w3) = self.pos_directional_score(pos, 1, 0);
        proof {
            lemma_ray_partial_bounds(g, size, winl, px, py, 0, 1, Player::A);
            lemma_ray_partial_bounds(g, size, winl, px, py, 1, 1, Player::A);
            lemma_ray_partial_bounds(g, size, winl, px, py, -1, 1, Player::A);
            lemma_ray_partial_bounds(g, size, winl, px, py, 1, 0, Player::A);
            lemma_ray_partial_bounds(g, size, winl, px, py, 0, 1, Player::B);
            lemma_ray_partial_bounds(g, size, winl, px, py, 1, 1, Player::B);
            lemma_ray_partial_bounds(g, size, winl, px, py, -1, 1, Player::B);
            lemma_ray_partial_bounds(g, size, winl, px, py, 1, 0, Player::B);
        }
        let winner: Option<Player> = match w0 {
            Some(p) => Some(p),
            None => match w1 {
                Some(p) => Some(p),
                None => match w2 {
                    Some(p) => Some(p),
                    None => w3,
                },
            },
        };
        proof {
            if winner is None {
                assert forall|p: Player|
                    !wins_through(g, size, winl, px, py, p) by {
                    if wins_through(g, size, winl, px, py, p) {
                        let (k, dx, dy) = choose|k: int, dx: int, dy: int|
                            0 <= k < winl && dir_ok(dx, dy) && #[trigger] window_win(
                                g,
                                size,
                                winl,
                                px - dx * k,
                                py - dy * k,
                                dx,
                                dy,
                                p,
                            );
                        assert(false);
                    }
                }
            }
        }
        (s0 + s1 + s2 + s3, a0 + a1 + a2 + a3, b0 + b1 + b2 + b3, winner)
    }
}

/// Whether `do_move` accepts the move on this state: nobody has won, the
/// position is on the board, and the cell is empty.
pub open spec fn do_move_ok(m: BoardModel, mv: Move) -> bool {
    &&& m.won is None
    &&& in_range(m.size, mv.pos.x as int, mv.pos.y as int)
    &&& cell(m.grid, mv.pos.x as int, mv.pos.y as int) is None
}

/// The error `do_move` reports when it rejects a move.
pub open spec fn do_move_err(m: BoardModel, mv: Move) -> BoardError {
    if m.won is Some {
        BoardError::AlreadyWon
    } else if !in_range(m.size, mv.pos.x as int, mv.pos.y as int) {
        BoardError::OutOfBounds
    } else {
        BoardError::Occupied
    }
}

/// The winner a committed move reports: the mover, exactly when the new stone
/// completes a window through its own position.
pub open spec fn move_winner(m: BoardModel, mv: Move) -> Option<Player> {
    let g2 = set_cell(m.grid, mv.pos.x as int, mv.pos.y as int, Some(mv.player));
    if wins_through(g2, m.size, m.win, mv.pos.x as int, mv.pos.y as int, mv.player) {
        Some(mv.player)
    } else {
        None
    }
}

/// The state after a committed move: the stone placed, the score and threat
/// counters at their full-recomputation values, the move and the pre-move
/// score recorded, the turn passed, and any completed win latched.
pub open spec fn do_move_state(m: BoardModel, mv: Move) -> BoardModel {
    let g2 = set_cell(m.grid, mv.pos.x as int, mv.pos.y as int, Some(mv.player));
    BoardModel {
        grid: g2,
        current: m.current.spec_rotate(),
        moves: m.moves.push(mv),
        score: total_score(g2, m.size, m.win),
        score_stack: m.score_stack.push(m.score),
        won: move_winner(m, mv),
        a_threats: total_threats(g2, m.size, m.win, Player::A),
        b_threats: total_threats(g2, m.size, m.win, Player::B),
        ..m
    }
}

/// The state after undoing the last move; the identity on an empty history.
pub open spec fn undo_state(m: BoardModel) -> BoardModel {
    if m.moves.len() == 0 {
        m
    } else {
        let mv = m.moves.last();
        let g2 = set_cell(m.grid, mv.pos.x as int, mv.pos.y as int, None);
        BoardModel {
            grid: g2,
            current: m.current.spec_rotate(),
            moves: m.moves.drop_last(),
            score: total_score(g2, m.size, m.win),
            score_stack: m.score_stack.drop_last(),
            won: None,
            a_threats: total_threats(g2, m.size, m.win, Player::A),
            b_threats: total_threats(g2, m.size, m.win, Player::B),
            ..m
        }
    }
}

impl Board {
    /// A move is valid when its cell lies on the board and is empty.
    pub fn is_move_valid(&self, mv: Move) -> (r: bool)
        requires
            self.wf(),
        ensures
            r == (in_range(self@.size, mv.pos.x as int, mv.pos.y as int) && cell(
                self@.grid,
                mv.pos.x as int,
                mv.pos.y as int,
            ) is None),
    {
        match self.get(mv.pos) {
            Some(None) => true,
            _ => false,
        }
    }

    /// Commits a move: rejects it after a win, off the board, or onto an
    /// occupied cell, leaving the board untouched; otherwise places the stone,
    /// moves the score and threat counters by the four-fan delta around the
    /// position, records the history, passes the turn, and reports a win
    /// exactly when the stone completes a window.
    #[verifier::rlimit(100)]
    pub fn do_move(&mut self, mv: Move) -> (r: Result<Option<Player>, BoardError>)
        requires
            old(self).inv(),
        ensures
            final(self).inv(),
            (r is Ok) == do_move_ok(old(self)@, mv),
            r is Err ==> final(self)@ == old(self)@,
            (match r {
                Err(e) => e == do_move_err(old(self)@, mv),
                Ok(w) => final(self)@ == do_move_state(old(self)@, mv) && w == move_winner(
                    old(self)@,
                    mv,
                ),
            }),
    {
        let ghost m0 = self@;
        let ghost px = mv.pos.x as int;
        let ghost py = mv.pos.y as int;
        if self.won.is_some() {
            return Err(BoardError::AlreadyWon);
        }
        if mv.pos.x < 0 || mv.pos.y < 0 || mv.pos.x >= self.size as i32 || mv.pos.y
            >= self.size as i32 {
            return Err(BoardError::OutOfBounds);
        }
        match self.get(mv.pos) {
            Some(Some(_)) => {
                return Err(BoardError::Occupied);
            },
            _ => {},
        }
        let old_score = self.score;
        let (s1, a1, b1, _pre) = self.score_for_position(mv.pos);
        proof {
            lemma_score_bounds(m0.grid, m0.size, m0.win, px, py, Player::A);
            lemma_score_bounds(m0.grid, m0.size, m0.win, px, py, Player::B);
        }
        self.score = self.score - s1;
        self.player_a_one_left = self.player_a_one_left - a1;
        self.player_b_one_left = self.player_b_one_left - b1;
        self.set(mv.pos, Some(mv.player));
        let ghost g2 = self@.grid;
        proof {
            assert(g2 == set_cell(m0.grid, px, py, Some(mv.player)));
            assert forall|x: int, y: int| !(x == px && y == py) implies #[trigger] cell(m0.grid, x, y)
                == cell(g2, x, y) by {}
            lemma_score_shift(m0.grid, g2, m0.size, m0.win, px, py);
            lemma_score_bounds(g2, m0.size, m0.win, px, py, Player::A);
            lemma_score_bounds(g2, m0.size, m0.win, px, py, Player::B);
        }
        let (s2, a2, b2, winner) = self.score_for_position(mv.pos);
        self.score = self.score + s2;
        self.player_a_one_left = self.player_a_one_left + a2;
        self.player_b_one_left = self.player_b_one_left + b2;
        self.moves.push(mv);
        self.score_stack.push(old_score);
        self.current_player = self.current_player.rotate();
        match winner {
            Some(w) => {
                self.won = Some(w);
            },
            None => {},
        }
        proof {
            assert(self@.score == total_score(g2, m0.size, m0.win));
            assert(self@.a_threats == total_threats(g2, m0.size, m0.win, Player::A));
            assert(self@.b_threats == total_threats(g2, m0.size, m0.win, Player::B));
            match winner {
                Some(w) => {
                    lemma_wins_through_owner(g2, m0.size, m0.win, px, py, w);
                    assert(cell(g2, px, py) == Some(mv.player));
                    assert(winner == move_winner(m0, mv));
                },
                None => {
                    assert(winner == move_winner(m0, mv));
                },
            }
            assert(self@.moves == m0.moves.push(mv));
            assert(self@.score_stack =~= m0.score_stack.push(m0.score));
            assert(self@ =~= do_move_state(m0, mv));
            // the new history unwinds: clearing the fresh stone restores the
            // old grid, whose score is exactly the recorded one
            let g_back = set_cell(g2, px, py, None);
            assert(g_back[py] =~= m0.grid[py]);
            assert(g_back =~= m0.grid);
            assert(self@.moves.drop_last() =~= m0.moves);
            assert(self@.score_stack.drop_last() =~= m0.score_stack);
            assert(self@.moves.last() == mv);
            assert(unwind(g2, m0.size, m0.win, self@.moves, self@.score_stack));
            assert((m0.moves.len() + 1) % 2 == (if m0.moves.len() % 2 == 0 { 1int } else { 0int }));
            assert(self@.inv());
        }
        Ok(winner)
    }

    /// Undoes the last committed move, restoring the grid, the score, the
    /// threat counters, the turn, and clearing any win; a no-op on an empty
    /// history. The restored score always agrees with the recorded pre-move
    /// score.
    #[verifier::rlimit(100)]
    pub fn undo_move(&mut self)
        requires
            old(self).inv(),
        ensures
            final(self).inv(),
            final(self)@ == undo_state(old(self)@),
    {
        let ghost m0 = self@;
        if self.moves.len() == 0 {
            proof {
                assert(self@ =~= undo_state(m0));
            }
            return ;
        }
        let mv = match self.moves.pop() {
            Some(mv) => mv,
            None => {
                // the history was checked to be non-empty
                proof {
                    assert(false);
                }
                Move { pos: Pos { x: 0, y: 0 }, player: Player::A }
            },
        };
        let ghost px = mv.pos.x as int;
        let ghost py = mv.pos.y as int;
        self.won = None;
        let (s1, a1, b1, _w1) = self.score_for_position(mv.pos);
        proof {
            lemma_score_bounds(m0.grid, m0.size, m0.win, px, py, Player::A);
            lemma_score_bounds(m0.grid, m0.size, m0.win, px, py, Player::B);
        }
        self.score = self.score - s1;
        self.player_a_one_left = self.player_a_one_left - a1;
        self.player_b_one_left = self.player_b_one_left - b1;
        self.set(mv.pos, None);
        let ghost g2 = self@.grid;
        proof {
            assert(g2 == set_cell(m0.grid, px, py, None));
            assert forall|x: int, y: int| !(x == px && y == py) implies #[trigger] cell(m0.grid, x, y)
                == cell(g2, x, y) by {}
            lemma_score_shift(m0.grid, g2, m0.size, m0.win, px, py);
            lemma_score_bounds(g2, m0.size, m0.win, px, py, Player::A);
            lemma_score_bounds(g2, m0.size, m0.win, px, py, Player::B);
        }
        let (s2, a2, b2, _w2) = self.score_for_position(mv.pos);
        self.score = self.score + s2;
        self.player_a_one_left = self.player_a_one_left + a2;
        self.player_b_one_left = self.player_b_one_left + b2;
        let popped = self.score_stack.pop();
        proof {
            // the incremental score agrees with the recorded pre-move score
            assert(self@.score == total_score(g2, m0.size, m0.win));
            assert(popped matches Some(v) && v as int == self@.score);
            assert(self@.score_stack =~= m0.score_stack.drop_last());
        }
        self.current_player = self.current_player.rotate();
        proof {
            assert(self@ =~= undo_state(m0));
            assert((m0.moves.len() - 1) % 2 == (if m0.moves.len() % 2 == 0 { 1int } else { 0int }));
            assert(self@.inv());
        }
    }
}

/// Move/undo round-trip: undoing immediately after a committed move restores
/// the exact previous state — grid, score, current player, threat counters,
/// win status, move history, and score stack.
pub proof fn lemma_do_undo_round_trip(m: BoardModel, mv: Move)
    requires
        m.inv(),
        do_move_ok(m, mv),
    ensures
        undo_state(do_move_state(m, mv)) == m,
{
    let px = mv.pos.x as int;
    let py = mv.pos.y as int;
    let m1 = do_move_state(m, mv);
    assert(m1.moves.last() == mv);
    assert(m1.moves.len() > 0);
    let g_back = set_cell(m1.grid, px, py, None);
    assert(g_back[py] =~= m.grid[py]);
    assert(g_back =~= m.grid);
    assert(m1.moves.drop_last() =~= m.moves);
    assert(m1.score_stack.drop_last() =~= m.score_stack);
    assert(undo_state(m1) =~= m);
}

/// The incrementally maintained score and threat counters of any reachable
/// board equal a full recomputation over every window on the grid.
pub proof fn lemma_incremental_score_exact(m: BoardModel)
    requires
        m.inv(),
    ensures
        m.score == total_score(m.grid, m.size, m.win),
        m.a_threats == total_threats(m.grid, m.size, m.win, Player::A),
        m.b_threats == total_threats(m.grid, m.size, m.win, Player::B),
{
}

/// A committed move that completes a window latches the win, and a won board
/// accepts no further move until the win is undone.
pub proof fn lemma_win_latches(m: BoardModel, mv: Move, mv2: Move)
    requires
        m.inv(),
        do_move_ok(m, mv),
        move_winner(m, mv) is Some,
    ensures
        do_move_state(m, mv).won is Some,
        !do_move_ok(do_move_state(m, mv), mv2),
        undo_state(do_move_state(m, mv)).won is None,
{
}

/// An empty cell with an occupied cell among its eight neighbors.
pub open spec fn frontier_cell(g: GridModel, size: int, x: int, y: int) -> bool {
    &&& in_range(size, x, y)
    &&& cell(g, x, y) is None
    &&& {
        ||| cell(g, x + 1, y) is Some
        ||| cell(g, x - 1, y) is Some
        ||| cell(g, x, y + 1) is Some
        ||| cell(g, x, y - 1) is Some
        ||| cell(g, x + 1, y + 1) is Some
        ||| cell(g, x - 1, y + 1) is Some
        ||| cell(g, x + 1, y - 1) is Some
        ||| cell(g, x - 1, y - 1) is Some
    }
}

/// The frontier moves of one row, in ascending column order.
pub open spec fn row_moves(g: GridModel, size: int, player: Player, y: int, n: int) -> Seq<Move>
    decreases n,
{
    if n <= 0 {
        Seq::empty()
    } else {
        row_moves(g, size, player, y, n - 1) + (if frontier_cell(g, size, n - 1, y) {
            seq![Move { pos: Pos { x: (n - 1) as i32, y: y as i32 }, player }]
        } else {
            Seq::empty()
        })
    }
}

/// All frontier moves in row-major order (row by row, ascending column).
pub open spec fn frontier_moves(g: GridModel, size: int, player: Player, rows: int) -> Seq<Move>
    decreases rows,
{
    if rows <= 0 {
        Seq::empty()
    } else {
        frontier_moves(g, size, player, rows - 1) + row_moves(g, size, player, rows - 1, size)
    }
}

/// Every generated candidate is a frontier cell of the given player.
pub proof fn lemma_row_moves_ok(g: GridModel, size: int, player: Player, y: int, n: int)
    requires
        0 <= y < size,
        n <= size <= 36,
    ensures
        forall|i: int|
            0 <= i < row_moves(g, size, player, y, n).len() ==> {
                let mv = #[trigger] row_moves(g, size, player, y, n)[i];
                &&& frontier_cell(g, size, mv.pos.x as int, mv.pos.y as int)
                &&& mv.player == player
                &&& mv.pos.y as int == y
            },
    decreases n,
{
    if n > 0 {
        lemma_row_moves_ok(g, size, player, y, n - 1);
    }
}

pub proof fn lemma_frontier_moves_ok(g: GridModel, size: int, player: Player, rows: int)
    requires
        rows <= size <= 36,
    ensures
        forall|i: int|
            0 <= i < frontier_moves(g, size, player, rows).len() ==> {
                let mv = #[trigger] frontier_moves(g, size, player, rows)[i];
                &&& frontier_cell(g, size, mv.pos.x as int, mv.pos.y as int)
                &&& mv.player == player
            },
    decreases rows,
{
    if rows > 0 {
        lemma_frontier_moves_ok(g, size, player, rows - 1);
        lemma_row_moves_ok(g, size, player, rows - 1, size);
    }
}

impl Board {
    /// The legal candidate moves for the side to move: every empty cell that
    /// touches an occupied cell, in row-major order. A frontier generator: on
    /// an empty board it yields nothing, and the caller falls back to the
    /// board center.
    #[verifier::loop_isolation(false)]
    pub fn get_moves(&self) -> (r: Vec<Move>)
        requires
            self.wf(),
        ensures
            r@ == frontier_moves(self@.grid, self@.size, self@.current, self@.size),
    {
        let ghost g = self@.grid;
        let ghost size = self@.size;
        let player = self.current_player;
        let size_e: i32 = self.size as i32;
        let mut r: Vec<Move> = Vec::new();
        let mut y: i32 = 0;
        while y < size_e
            invariant
                0 <= y <= size_e,
                r@ == frontier_moves(g, size, player, y as int),
            decreases size_e - y,
        {
            let mut x: i32 = 0;
            while x < size_e
                invariant
                    0 <= x <= size_e,
                    0 <= y < size_e,
                    r@ == frontier_moves(g, size, player, y as int) + row_moves(
                        g,
                        size,
                        player,
                        y as int,
                        x as int,
                    ),
                decreases size_e - x,
            {
                let empty_here = match self.get(Pos { x, y }) {
                    Some(None) => true,
                    _ => false,
                };
                let neighbor = self.has_occupied_neighbor(Pos { x, y });
                if empty_here && neighbor {
                    r.push(Move { pos: Pos { x, y }, player });
                }
                proof {
                    assert(r@ =~= frontier_moves(g, size, player, y as int) + row_moves(
                        g,
                        size,
                        player,
                        y as int,
                        x as int + 1,
                    ));
                }
                x = x + 1;
            }
            proof {
                assert(r@ =~= frontier_moves(g, size, player, y as int + 1));
            }
            y = y + 1;
        }
        r
    }

    /// Some cell at Chebyshev distance one from `pos` holds a stone.
    fn has_occupied_neighbor(&self, pos: Pos) -> (r: bool)
        requires
            self.wf(),
            in_range(self@.size, pos.x as int, pos.y as int),
        ensures
            r == {
                ||| cell(self@.grid, pos.x as int + 1, pos.y as int) is Some
                ||| cell(self@.grid, pos.x as int - 1, pos.y as int) is Some
                ||| cell(self@.grid, pos.x as int, pos.y as int + 1) is Some
                ||| cell(self@.grid, pos.x as int, pos.y as int - 1) is Some
                ||| cell(self@.grid, pos.x as int + 1, pos.y as int + 1) is Some
                ||| cell(self@.grid, pos.x as int - 1, pos.y as int + 1) is Some
                ||| cell(self@.grid, pos.x as int + 1, pos.y as int - 1) is Some
                ||| cell(self@.grid, pos.x as int - 1, pos.y as int - 1) is Some
            },
    {
        let occ = |q: Option<Tile>| -> (b: bool)
            ensures
                b == (q matches Some(t) && t is Some),
            {
                match q {
                    Some(Some(_)) => true,
                    _ => false,
                }
            };
        occ(self.get(Pos { x: pos.x + 1, y: pos.y })) || occ(self.get(Pos { x: pos.x - 1, y: pos.y }))
            || occ(self.get(Pos { x: pos.x, y: pos.y + 1 })) || occ(
            self.get(Pos { x: pos.x, y: pos.y - 1 }),
        ) || occ(self.get(Pos { x: pos.x + 1, y: pos.y + 1 })) || occ(
            self.get(Pos { x: pos.x - 1, y: pos.y + 1 }),
        ) || occ(self.get(Pos { x: pos.x + 1, y: pos.y - 1 })) || occ(
            self.get(Pos { x: pos.x - 1, y: pos.y - 1 }),
        )
    }
}

/// Some complete window for `p` stands anywhere on the board.
pub open spec fn has_win(g: GridModel, size: int, win: int, p: Player) -> bool {
    exists|x0: int, y0: int, dx: int, dy: int|
        dir_ok(dx, dy) && #[trigger] window_win(g, size, win, x0, y0, dx, dy, p)
}

impl Board {
    /// Whether the window starting at (x0, y0) in the given orientation is
    /// completely filled by `wanted`.
    #[verifier::loop_isolation(false)]
    fn is_win_window(&self, x0: i32, y0: i32, dx: i32, dy: i32, wanted: Player) -> (r: bool)
        requires
            self.wf(),
            dir_ok(dx as int, dy as int),
            -36 <= x0 as int <= 36,
            -36 <= y0 as int <= 36,
        ensures
            r == window_win(
                self@.grid,
                self@.size,
                self@.win,
                x0 as int,
                y0 as int,
                dx as int,
                dy as int,
                wanted,
            ),
    {
        let ghost g = self@.grid;
        let ghost size = self@.size;
        let ghost winl = self@.win;
        let win: i32 = self.win_length as i32;
        let mut k: i32 = 0;
        let mut ok = true;
        while ok && k < win
            invariant
                0 <= k <= win,
                ok ==> forall|j: int|
                    0 <= j < k as int ==> in_range(
                        size,
                        x0 as int + dx as int * j,
                        y0 as int + dy as int * j,
                    ) && #[trigger] cell(g, x0 as int + dx as int * j, y0 as int + dy as int * j)
                        == Some(wanted),
                !ok ==> !window_win(g, size, winl, x0 as int, y0 as int, dx as int, dy as int, wanted),
            decreases win - k, (if ok { 1int } else { 0int }),
        {
            proof {
                assert(-36 <= dx as int * (k as int) <= 36 && -36 <= dy as int * (k as int)
                    <= 36) by (nonlinear_arith)
                    requires
                        dir_ok(dx as int, dy as int),
                        0 <= k as int <= 36,
                ;
            }
            let hit = match self.get(Pos { x: x0 + dx * k, y: y0 + dy * k }) {
                Some(Some(p)) => p == wanted,
                _ => false,
            };
            if hit {
                k = k + 1;
            } else {
                proof {
                    if window_win(g, size, winl, x0 as int, y0 as int, dx as int, dy as int, wanted) {
                        lemma_window_cell_in_range(size, winl, x0 as int, y0 as int, dx as int, dy as int, k as int);
                        lemma_count_line_full(g, x0 as int, y0 as int, dx as int, dy as int, winl, wanted);
                    }
                }
                ok = false;
            }
        }
        if ok {
            proof {
                lemma_count_line_full(g, x0 as int, y0 as int, dx as int, dy as int, winl, wanted);
                assert(dx as int * 0 == 0 && dy as int * 0 == 0);
                assert(cell(g, x0 as int + dx as int * 0, y0 as int + dy as int * 0) == Some(
                    wanted,
                ));
                assert(in_range(size, x0 as int, y0 as int));
                assert(cell(
                    g,
                    x0 as int + dx as int * (winl - 1),
                    y0 as int + dy as int * (winl - 1),
                ) == Some(wanted));
                assert(window_on_board(size, winl, x0 as int, y0 as int, dx as int, dy as int));
            }
            true
        } else {
            false
        }
    }

    /// Whether `wanted` has a complete window in one orientation, by scanning
    /// every start on the board.
    #[verifier::loop_isolation(false)]
    fn check_win_for_direction(&self, wanted: Player, dx: i32, dy: i32) -> (r: bool)
        requires
            self.wf(),
            dir_ok(dx as int, dy as int),
        ensures
            r == exists|x0: int, y0: int|
                #[trigger] window_win(
                    self@.grid,
                    self@.size,
                    self@.win,
                    x0,
                    y0,
                    dx as int,
                    dy as int,
                    wanted,
                ),
    {
        let ghost g = self@.grid;
        let ghost size = self@.size;
        let ghost winl = self@.win;
        let size_e: i32 = self.size as i32;
        let mut y: i32 = 0;
        while y < size_e
            invariant
                0 <= y <= size_e,
                forall|x0: int, y0: int|
                    0 <= y0 < y as int && 0 <= x0 < size ==> !(#[trigger] window_win(
                        g,
                        size,
                        winl,
                        x0,
                        y0,
                        dx as int,
                        dy as int,
                        wanted,
                    )),
            decreases size_e - y,
        {
            let mut x: i32 = 0;
            while x < size_e
                invariant
                    0 <= x <= size_e,
                    0 <= y < size_e,
                    forall|x0: int, y0: int|
                        0 <= y0 < y as int && 0 <= x0 < size ==> !(#[trigger] window_win(
                            g,
                            size,
                            winl,
                            x0,
                            y0,
                            dx as int,
                            dy as int,
                            wanted,
                        )),
                    forall|x0: int|
                        0 <= x0 < x as int ==> !(#[trigger] window_win(
                            g,
                            size,
                            winl,
                            x0,
                            y as int,
                            dx as int,
                            dy as int,
                            wanted,
                        )),
                decreases size_e - x,
            {
                if self.is_win_window(x, y, dx, dy, wanted) {
                    return true;
                }
                x = x + 1;
            }
            y = y + 1;
        }
        proof {
            assert forall|x0: int, y0: int|
                !(#[trigger] window_win(g, size, winl, x0, y0, dx as int, dy as int, wanted)) by {
                if window_win(g, size, winl, x0, y0, dx as int, dy as int, wanted) {
                    assert(in_range(size, x0, y0));
                }
            }
        }
        false
    }

    /// Whether `wanted` has five in a row anywhere, by a full-board scan: the
    /// from-scratch face of the incremental win detection.
    pub fn check_win(&self, wanted: Player) -> (r: bool)
        requires
            self.wf(),
        ensures
            r == has_win(self@.grid, self@.size, self@.win, wanted),
    {
        let ghost g = self@.grid;
        let ghost size = self@.size;
        let ghost winl = self@.win;
        let r = self.check_win_for_direction(wanted, 1, 0) || self.check_win_for_direction(
            wanted,
            1,
            1,
        ) || self.check_win_for_direction(wanted, 0, 1) || self.check_win_for_direction(
            wanted,
            -1,
            1,
        );
        proof {
            if !r {
                assert forall|x0: int, y0: int, dx: int, dy: int| dir_ok(dx, dy) implies !(
                #[trigger] window_win(g, size, winl, x0, y0, dx, dy, wanted)) by {}
            }
        }
        r
    }
}

/// The value of one base-36 digit, if the character is one.
pub open spec fn spec_digit36(c: char) -> Option<int> {
    if 48 <= c as int && c as int <= 57 {
        Some(c as int - 48)
    } else if 97 <= c as int && c as int <= 122 {
        Some(c as int - 97 + 10)
    } else if 65 <= c as int && c as int <= 90 {
        Some(c as int - 65 + 10)
    } else {
        None
    }
}

/// The move a two-character string denotes: one base-36 digit per axis, x
/// then y, and nothing else; anything shorter, longer, or non-digit fails.
pub open spec fn spec_parse_move(player: Player, s: Seq<char>) -> Option<Move> {
    if s.len() == 2 && spec_digit36(s[0]) is Some && spec_digit36(s[1]) is Some {
        Some(
            Move {
                pos: Pos {
                    x: spec_digit36(s[0]).unwrap() as i32,
                    y: spec_digit36(s[1]).unwrap() as i32,
                },
                player,
            },
        )
    } else {
        None
    }
}

impl Move {
    /// Reads a base-36 digit.
    fn digit36(c: char) -> (r: Option<u32>)
        ensures
            (match r {
                Some(v) => spec_digit36(c) == Some(v as int) && v < 36,
                None => spec_digit36(c) is None,
            }),
    {
        let u = c as u32;
        if u >= 48 && u <= 57 {
            Some(u - 48)
        } else if u >= 97 && u <= 122 {
            Some(u - 97 + 10)
        } else if u >= 65 && u <= 90 {
            Some(u - 65 + 10)
        } else {
            None
        }
    }

    /// Parses the textual form of a move for the given player: two base-36
    /// digits, x then y, with no trailing characters.
    pub fn from_string(current_player: Player, string: &str) -> (r: Option<Move>)
        ensures
            r == spec_parse_move(current_player, string@),
    {
        let n = string.unicode_len();
        if n != 2 {
            return None;
        }
        let c0 = string.get_char(0);
        let c1 = string.get_char(1);
        match (Move::digit36(c0), Move::digit36(c1)) {
            (Some(x), Some(y)) => Some(
                Move { pos: Pos { x: x as i32, y: y as i32 }, player: current_player },
            ),
            _ => None,
        }
    }
}

impl Board {
    /// One window's contribution, computed from scratch by scanning its cells.
    #[verifier::loop_isolation(false)]
    fn window_contrib_exec(&self, x0: i32, y0: i32, dx: i32, dy: i32) -> (r: i32)
        requires
            self.wf(),
            dir_ok(dx as int, dy as int),
            -40 <= x0 <= 40,
            -40 <= y0 <= 40,
        ensures
            r as int == window_contrib(
                self@.grid,
                self@.size,
                self@.win,
                x0 as int,
                y0 as int,
                dx as int,
                dy as int,
            ),
    {
        let ghost g = self@.grid;
        let ghost size = self@.size;
        let ghost winl = self@.win;
        let win: i32 = self.win_length as i32;
        let size_e: i32 = self.size as i32;
        proof {
            assert(-36 <= dx as int * (winl - 1) <= 36 && -36 <= dy as int * (winl - 1)
                <= 36) by (nonlinear_arith)
                requires
                    dir_ok(dx as int, dy as int),
                    2 <= winl <= 36,
            ;
        }
        let ex = x0 + dx * (win - 1);
        let ey = y0 + dy * (win - 1);
        if !(0 <= x0 && x0 < size_e && 0 <= y0 && y0 < size_e && 0 <= ex && ex < size_e && 0 <= ey
            && ey < size_e) {
            return 0;
        }
        let mut a: i32 = 0;
        let mut b: i32 = 0;
        let mut k: i32 = 0;
        while k < win
            invariant
                0 <= k <= win,
                a == count_line(g, x0 as int, y0 as int, dx as int, dy as int, k as int, Player::A),
                b == count_line(g, x0 as int, y0 as int, dx as int, dy as int, k as int, Player::B),
            decreases win - k,
        {
            proof {
                lemma_count_line_bounds(
                    g,
                    x0 as int,
                    y0 as int,
                    dx as int,
                    dy as int,
                    k as int,
                    Player::A,
                );
                lemma_count_line_bounds(
                    g,
                    x0 as int,
                    y0 as int,
                    dx as int,
                    dy as int,
                    k as int,
                    Player::B,
                );
                assert(-36 <= dx as int * (k as int) <= 36 && -36 <= dy as int * (k as int)
                    <= 36) by (nonlinear_arith)
                    requires
                        dir_ok(dx as int, dy as int),
                        0 <= k as int <= 36,
                ;
            }
            match self.get(Pos { x: x0 + dx * k, y: y0 + dy * k }) {
                Some(Some(Player::A)) => {
                    a = a + 1;
                },
                Some(Some(Player::B)) => {
                    b = b + 1;
                },
                _ => {},
            }
            k = k + 1;
        }
        proof {
            lemma_count_line_bounds(g, x0 as int, y0 as int, dx as int, dy as int, winl, Player::A);
            lemma_count_line_bounds(g, x0 as int, y0 as int, dx as int, dy as int, winl, Player::B);
            assert(a * a <= 1296 && a * a >= 0 && b * b <= 1296 && b * b >= 0) by (nonlinear_arith)
                requires
                    0 <= a as int <= 36,
                    0 <= b as int <= 36,
            ;
        }
        if a > 0 && b == 0 && a < win {
            a * a
        } else if b > 0 && a == 0 && b < win {
            -(b * b)
        } else {
            0
        }
    }

    /// The summed contribution of every window in one orientation, from
    /// scratch.
    #[verifier::loop_isolation(false)]
    fn dir_total(&self, dx: i32, dy: i32) -> (r: i32)
        requires
            self.wf(),
            dir_ok(dx as int, dy as int),
        ensures
            r as int == sum_grid(
                contrib_fn(self@.grid, self@.size, self@.win, dx as int, dy as int),
                self@.size,
                self@.size,
            ),
    {
        let ghost g = self@.grid;
        let ghost size = self@.size;
        let ghost winl = self@.win;
        let ghost cf = contrib_fn(g, size, winl, dx as int, dy as int);
        proof {
            assert forall|x: int, y: int| -1296 <= #[trigger] cf(x, y) <= 1296 by {
                crate::scoring::lemma_window_contrib_bound(
                    g,
                    size,
                    winl,
                    x,
                    y,
                    dx as int,
                    dy as int,
                );
                assert(winl * winl <= 1296) by (nonlinear_arith)
                    requires 2 <= winl <= 36;
            }
        }
        let size_e: i32 = self.size as i32;
        let mut acc: i32 = 0;
        let mut y: i32 = 0;
        while y < size_e
            invariant
                0 <= y <= size_e,
                acc as int == sum_grid(cf, size, y as int),
            decreases size_e - y,
        {
            let mut x: i32 = 0;
            while x < size_e
                invariant
                    0 <= x <= size_e,
                    0 <= y < size_e,
                    acc as int == sum_grid(cf, size, y as int) + sum_row(cf, y as int, x as int),
                decreases size_e - x,
            {
                proof {
                    lemma_sum_grid_bound(cf, size, y as int, -1296, 1296);
                    lemma_sum_row_bound(cf, y as int, x as int, -1296, 1296);
                    assert((y as int) * (size * 1296) <= 1679616 && (y as int) * (size * -1296)
                        >= -1679616 && (x as int) * 1296 <= 46656 && (x as int) * -1296
                        >= -46656) by (nonlinear_arith)
                        requires
                            0 <= y as int,
                            0 <= x as int,
                            (y as int) <= size,
                            (x as int) <= size,
                            2 <= size <= 36,
                    ;
                }
                let w = self.window_contrib_exec(x, y, dx, dy);
                proof {
                    assert(w as int == cf(x as int, y as int));
                }
                acc = acc + w;
                x = x + 1;
            }
            proof {
                assert(sum_grid(cf, size, y as int + 1) == sum_grid(cf, size, y as int) + sum_row(
                    cf,
                    y as int,
                    size,
                ));
            }
            y = y + 1;
        }
        acc
    }

    /// The whole-board score recomputed from scratch over every window: the
    /// checkable face of the incremental-score invariant — on any reachable
    /// board it returns exactly the `score` field.
    pub fn recompute_score(&self) -> (r: i32)
        requires
            self.wf(),
        ensures
            r as int == total_score(self@.grid, self@.size, self@.win),
            self.inv() ==> r == self.score,
    {
        let ghost g = self@.grid;
        let ghost size = self@.size;
        let ghost winl = self@.win;
        proof {
            assert forall|dxi: int, dyi: int| dir_ok(dxi, dyi) implies -1679616 <= #[trigger] sum_grid(
                contrib_fn(g, size, winl, dxi, dyi),
                size,
                size,
            ) <= 1679616 by {
                let cf = contrib_fn(g, size, winl, dxi, dyi);
                assert forall|x: int, y: int| -1296 <= #[trigger] cf(x, y) <= 1296 by {
                    crate::scoring::lemma_window_contrib_bound(g, size, winl, x, y, dxi, dyi);
                    assert(winl * winl <= 1296) by (nonlinear_arith)
                        requires 2 <= winl <= 36;
                }
                lemma_sum_grid_bound(cf, size, size, -1296, 1296);
                assert(size * (size * 1296) <= 1679616 && size * (size * -1296)
                    >= -1679616) by (nonlinear_arith)
                    requires 2 <= size <= 36;
            }
        }
        let t0 = self.dir_total(0, 1);
        let t1 = self.dir_total(1, 1);
        let t2 = self.dir_total(-1, 1);
        let t3 = self.dir_total(1, 0);
        t0 + t1 + t2 + t3
    }
}

} // verus!
