//! The mathematical model of board evaluation: the per-window contribution
//! function, threat windows, winning windows, and their sums over the whole
//! board and over the windows through one position.
use vstd::prelude::*;
use crate::Player;

verus! {

/// The abstract grid: a square sequence of rows of tiles.
pub type GridModel = Seq<Seq<Option<Player>>>;

/// Reading a cell, total over all coordinates: anything off the board is empty.
pub open spec fn cell(g: GridModel, x: int, y: int) -> Option<Player> {
    if 0 <= y < g.len() && 0 <= x < g[y].len() {
        g[y][x]
    } else {
        None
    }
}

pub open spec fn grid_wf(g: GridModel, size: int) -> bool {
    &&& g.len() == size
    &&& forall|y: int| 0 <= y < size ==> (#[trigger] g[y]).len() == size
}

pub open spec fn in_range(size: int, x: int, y: int) -> bool {
    0 <= x < size && 0 <= y < size
}

/// The four line orientations: down, down-right, down-left, right.
pub open spec fn dir_ok(dx: int, dy: int) -> bool {
    ||| (dx == 0 && dy == 1)
    ||| (dx == 1 && dy == 1)
    ||| (dx == -1 && dy == 1)
    ||| (dx == 1 && dy == 0)
}

/// How many of the first `n` cells of the line from (x0, y0) along (dx, dy)
/// hold a stone of `p`.
pub open spec fn count_line(
    g: GridModel,
    x0: int,
    y0: int,
    dx: int,
    dy: int,
    n: int,
    p: Player,
) -> int
    decreases n,
{
    if n <= 0 {
        0
    } else {
        count_line(g, x0, y0, dx, dy, n - 1, p) + if cell(
            g,
            x0 + dx * (n - 1),
            y0 + dy * (n - 1),
        ) == Some(p) {
            1int
        } else {
            0int
        }
    }
}

/// The window of `win` cells starting at (x0, y0) lies fully on the board.
/// For the four monotone orientations the two end cells bound every cell.
pub open spec fn window_on_board(
    size: int,
    win: int,
    x0: int,
    y0: int,
    dx: int,
    dy: int,
) -> bool {
    in_range(size, x0, y0) && in_range(size, x0 + dx * (win - 1), y0 + dy * (win - 1))
}

/// The contribution of one window to the board score: dead windows (both
/// players present), complete windows (they signal a win instead), and
/// off-board windows contribute nothing; otherwise the count of the lone
/// player's stones squared, positive for A and negative for B.
pub open spec fn window_contrib(
    g: GridModel,
    size: int,
    win: int,
    x0: int,
    y0: int,
    dx: int,
    dy: int,
) -> int {
    if !window_on_board(size, win, x0, y0, dx, dy) {
        0
    } else {
        let a = count_line(g, x0, y0, dx, dy, win, Player::A);
        let b = count_line(g, x0, y0, dx, dy, win, Player::B);
        if a > 0 && b == 0 && a < win {
            a * a
        } else if b > 0 && a == 0 && b < win {
            0 - b * b
        } else {
            0
        }
    }
}

/// A window one stone short of a win for `p`, with no opposing stone in it.
pub open spec fn window_threat(
    g: GridModel,
    size: int,
    win: int,
    x0: int,
    y0: int,
    dx: int,
    dy: int,
    p: Player,
) -> bool {
    &&& window_on_board(size, win, x0, y0, dx, dy)
    &&& count_line(g, x0, y0, dx, dy, win, p) == win - 1
    &&& count_line(g, x0, y0, dx, dy, win, p.spec_rotate()) == 0
}

/// A complete window: `win` stones of `p` in a row, fully on the board.
pub open spec fn window_win(
    g: GridModel,
    size: int,
    win: int,
    x0: int,
    y0: int,
    dx: int,
    dy: int,
    p: Player,
) -> bool {
    window_on_board(size, win, x0, y0, dx, dy) && count_line(g, x0, y0, dx, dy, win, p) == win
}

/// Sum of `f` over the row `y`, columns `0..n`.
pub open spec fn sum_row(f: spec_fn(int, int) -> int, y: int, n: int) -> int
    decreases n,
{
    if n <= 0 {
        0
    } else {
        sum_row(f, y, n - 1) + f(n - 1, y)
    }
}

/// Sum of `f` over the rectangle of width `w` and height `m`.
pub open spec fn sum_grid(f: spec_fn(int, int) -> int, w: int, m: int) -> int
    decreases m,
{
    if m <= 0 {
        0
    } else {
        sum_grid(f, w, m - 1) + sum_row(f, m - 1, w)
    }
}

/// Sum of `f` over the `n` window starts through (px, py) in one orientation:
/// the points (px - dx*k, py - dy*k) for k in 0..n.
pub open spec fn sum_ray(
    f: spec_fn(int, int) -> int,
    px: int,
    py: int,
    dx: int,
    dy: int,
    n: int,
) -> int
    decreases n,
{
    if n <= 0 {
        0
    } else {
        sum_ray(f, px, py, dx, dy, n - 1) + f(px - dx * (n - 1), py - dy * (n - 1))
    }
}

/// The window contribution at each start, for one orientation, as a function.
pub open spec fn contrib_fn(g: GridModel, size: int, win: int, dx: int, dy: int) -> spec_fn(
    int,
    int,
) -> int {
    (|x0: int, y0: int| window_contrib(g, size, win, x0, y0, dx, dy))
}

/// The threat indicator at each start, for one orientation, as a function.
pub open spec fn threat_fn(
    g: GridModel,
    size: int,
    win: int,
    dx: int,
    dy: int,
    p: Player,
) -> spec_fn(int, int) -> int {
    (|x0: int, y0: int| if window_threat(g, size, win, x0, y0, dx, dy, p) {
        1int
    } else {
        0int
    })
}

/// The board score: the contribution of every window on the board, over all
/// four orientations.
pub open spec fn total_score(g: GridModel, size: int, win: int) -> int {
    sum_grid(contrib_fn(g, size, win, 0, 1), size, size) + sum_grid(
        contrib_fn(g, size, win, 1, 1),
        size,
        size,
    ) + sum_grid(contrib_fn(g, size, win, -1, 1), size, size) + sum_grid(
        contrib_fn(g, size, win, 1, 0),
        size,
        size,
    )
}

/// How many windows on the board are one stone short of a win for `p`.
pub open spec fn total_threats(g: GridModel, size: int, win: int, p: Player) -> int {
    sum_grid(threat_fn(g, size, win, 0, 1, p), size, size) + sum_grid(
        threat_fn(g, size, win, 1, 1, p),
        size,
        size,
    ) + sum_grid(threat_fn(g, size, win, -1, 1, p), size, size) + sum_grid(
        threat_fn(g, size, win, 1, 0, p),
        size,
        size,
    )
}

/// The contribution of the windows through (px, py) alone.
pub open spec fn through_score(g: GridModel, size: int, win: int, px: int, py: int) -> int {
    sum_ray(contrib_fn(g, size, win, 0, 1), px, py, 0, 1, win) + sum_ray(
        contrib_fn(g, size, win, 1, 1),
        px,
        py,
        1,
        1,
        win,
    ) + sum_ray(contrib_fn(g, size, win, -1, 1), px, py, -1, 1, win) + sum_ray(
        contrib_fn(g, size, win, 1, 0),
        px,
        py,
        1,
        0,
        win,
    )
}

/// How many windows through (px, py) are one stone short of a win for `p`.
pub open spec fn through_threats(
    g: GridModel,
    size: int,
    win: int,
    px: int,
    py: int,
    p: Player,
) -> int {
    sum_ray(threat_fn(g, size, win, 0, 1, p), px, py, 0, 1, win) + sum_ray(
        threat_fn(g, size, win, 1, 1, p),
        px,
        py,
        1,
        1,
        win,
    ) + sum_ray(threat_fn(g, size, win, -1, 1, p), px, py, -1, 1, win) + sum_ray(
        threat_fn(g, size, win, 1, 0, p),
        px,
        py,
        1,
        0,
        win,
    )
}

/// Some complete window passes through (px, py).
pub open spec fn wins_through(
    g: GridModel,
    size: int,
    win: int,
    px: int,
    py: int,
    p: Player,
) -> bool {
    exists|k: int, dx: int, dy: int|
        0 <= k < win && dir_ok(dx, dy) && #[trigger] window_win(
            g,
            size,
            win,
            px - dx * k,
            py - dy * k,
            dx,
            dy,
            p,
        )
}

pub proof fn lemma_sum_row_congr(f: spec_fn(int, int) -> int, h: spec_fn(int, int) -> int, y: int, n: int)
    requires
        forall|x: int| 0 <= x < n ==> #[trigger] f(x, y) == h(x, y),
    ensures
        sum_row(f, y, n) == sum_row(h, y, n),
    decreases n,
{
    if n > 0 {
        lemma_sum_row_congr(f, h, y, n - 1);
    }
}

pub proof fn lemma_sum_grid_congr(f: spec_fn(int, int) -> int, h: spec_fn(int, int) -> int, w: int, m: int)
    requires
        forall|x: int, y: int| 0 <= x < w && 0 <= y < m ==> #[trigger] f(x, y) == h(x, y),
    ensures
        sum_grid(f, w, m) == sum_grid(h, w, m),
    decreases m,
{
    if m > 0 {
        lemma_sum_grid_congr(f, h, w, m - 1);
        lemma_sum_row_congr(f, h, m - 1, w);
    }
}

pub proof fn lemma_sum_ray_congr(
    f: spec_fn(int, int) -> int,
    h: spec_fn(int, int) -> int,
    px: int,
    py: int,
    dx: int,
    dy: int,
    n: int,
)
    requires
        forall|k: int| 0 <= k < n ==> #[trigger] f(px - dx * k, py - dy * k) == h(
            px - dx * k,
            py - dy * k,
        ),
    ensures
        sum_ray(f, px, py, dx, dy, n) == sum_ray(h, px, py, dx, dy, n),
    decreases n,
{
    if n > 0 {
        lemma_sum_ray_congr(f, h, px, py, dx, dy, n - 1);
    }
}

pub proof fn lemma_sum_row_zero(f: spec_fn(int, int) -> int, y: int, n: int)
    requires
        forall|x: int| 0 <= x < n ==> #[trigger] f(x, y) == 0,
    ensures
        sum_row(f, y, n) == 0,
    decreases n,
{
    if n > 0 {
        lemma_sum_row_zero(f, y, n - 1);
    }
}

pub proof fn lemma_sum_grid_zero(f: spec_fn(int, int) -> int, w: int, m: int)
    requires
        forall|x: int, y: int| 0 <= x < w && 0 <= y < m ==> #[trigger] f(x, y) == 0,
    ensures
        sum_grid(f, w, m) == 0,
    decreases m,
{
    if m > 0 {
        lemma_sum_grid_zero(f, w, m - 1);
        lemma_sum_row_zero(f, m - 1, w);
    }
}

pub proof fn lemma_sum_ray_zero(
    f: spec_fn(int, int) -> int,
    px: int,
    py: int,
    dx: int,
    dy: int,
    n: int,
)
    requires
        forall|k: int| 0 <= k < n ==> #[trigger] f(px - dx * k, py - dy * k) == 0,
    ensures
        sum_ray(f, px, py, dx, dy, n) == 0,
    decreases n,
{
    if n > 0 {
        lemma_sum_ray_zero(f, px, py, dx, dy, n - 1);
    }
}

/// Removing the value at one point from a row lowers its sum by that value.
pub proof fn lemma_sum_row_remove(
    f: spec_fn(int, int) -> int,
    h: spec_fn(int, int) -> int,
    y: int,
    n: int,
    qx: int,
)
    requires
        forall|x: int| 0 <= x < n ==> #[trigger] h(x, y) == (if x == qx {
            0int
        } else {
            f(x, y)
        }),
    ensures
        sum_row(f, y, n) == sum_row(h, y, n) + if 0 <= qx < n {
            f(qx, y)
        } else {
            0int
        },
    decreases n,
{
    if n > 0 {
        lemma_sum_row_remove(f, h, y, n - 1, qx);
    }
}

/// Removing the value at one point from the rectangle lowers its sum by that
/// value.
pub proof fn lemma_sum_grid_remove(
    f: spec_fn(int, int) -> int,
    h: spec_fn(int, int) -> int,
    w: int,
    m: int,
    qx: int,
    qy: int,
)
    requires
        forall|x: int, y: int| 0 <= x < w && 0 <= y < m ==> #[trigger] h(x, y) == (if x == qx && y
            == qy {
            0int
        } else {
            f(x, y)
        }),
    ensures
        sum_grid(f, w, m) == sum_grid(h, w, m) + if 0 <= qx < w && 0 <= qy < m {
            f(qx, qy)
        } else {
            0int
        },
    decreases m,
{
    if m > 0 {
        lemma_sum_grid_remove(f, h, w, m - 1, qx, qy);
        if qy == m - 1 {
            lemma_sum_row_remove(f, h, m - 1, w, qx);
        } else {
            lemma_sum_row_congr(f, h, m - 1, w);
        }
    }
}

/// A pointwise difference of two functions sums to the difference of the sums.
pub proof fn lemma_sum_row_sub(
    f: spec_fn(int, int) -> int,
    h: spec_fn(int, int) -> int,
    d: spec_fn(int, int) -> int,
    y: int,
    n: int,
)
    requires
        forall|x: int| 0 <= x < n ==> #[trigger] d(x, y) == f(x, y) - h(x, y),
    ensures
        sum_row(d, y, n) == sum_row(f, y, n) - sum_row(h, y, n),
    decreases n,
{
    if n > 0 {
        lemma_sum_row_sub(f, h, d, y, n - 1);
    }
}

pub proof fn lemma_sum_grid_sub(
    f: spec_fn(int, int) -> int,
    h: spec_fn(int, int) -> int,
    d: spec_fn(int, int) -> int,
    w: int,
    m: int,
)
    requires
        forall|x: int, y: int| 0 <= x < w && 0 <= y < m ==> #[trigger] d(x, y) == f(x, y) - h(x, y),
    ensures
        sum_grid(d, w, m) == sum_grid(f, w, m) - sum_grid(h, w, m),
    decreases m,
{
    if m > 0 {
        lemma_sum_grid_sub(f, h, d, w, m - 1);
        lemma_sum_row_sub(f, h, d, m - 1, w);
    }
}

pub proof fn lemma_sum_ray_sub(
    f: spec_fn(int, int) -> int,
    h: spec_fn(int, int) -> int,
    d: spec_fn(int, int) -> int,
    px: int,
    py: int,
    dx: int,
    dy: int,
    n: int,
)
    requires
        forall|k: int| 0 <= k < n ==> #[trigger] d(px - dx * k, py - dy * k) == f(
            px - dx * k,
            py - dy * k,
        ) - h(px - dx * k, py - dy * k),
    ensures
        sum_ray(d, px, py, dx, dy, n) == sum_ray(f, px, py, dx, dy, n) - sum_ray(
            h,
            px,
            py,
            dx,
            dy,
            n,
        ),
    decreases n,
{
    if n > 0 {
        lemma_sum_ray_sub(f, h, d, px, py, dx, dy, n - 1);
    }
}

/// The point (x, y) is the k-th window start through (px, py).
pub open spec fn ray_hit(px: int, py: int, dx: int, dy: int, k: int, x: int, y: int) -> bool {
    x == px - dx * k && y == py - dy * k
}

/// Two distinct indices along one orientation name two distinct points.
pub proof fn lemma_ray_points_distinct(px: int, py: int, dx: int, dy: int, k1: int, k2: int)
    requires
        dir_ok(dx, dy),
        px - dx * k1 == px - dx * k2,
        py - dy * k1 == py - dy * k2,
    ensures
        k1 == k2,
{
    if dy == 1 {
        assert(dy * k1 == k1 && dy * k2 == k2) by (nonlinear_arith)
            requires dy == 1;
    } else {
        assert(dx * k1 == k1 && dx * k2 == k2) by (nonlinear_arith)
            requires dx == 1;
    }
}

/// A function that vanishes off the board and off the `j` ray points through
/// (px, py) sums, over the whole rectangle, to its sum over the ray.
pub proof fn lemma_sum_grid_support(
    f: spec_fn(int, int) -> int,
    w: int,
    m: int,
    px: int,
    py: int,
    dx: int,
    dy: int,
    j: int,
)
    requires
        dir_ok(dx, dy),
        forall|x: int, y: int|
            0 <= x < w && 0 <= y < m && #[trigger] f(x, y) != 0 ==> exists|k: int|
                0 <= k < j && #[trigger] ray_hit(px, py, dx, dy, k, x, y),
        forall|x: int, y: int| !(0 <= x < w && 0 <= y < m) ==> #[trigger] f(x, y) == 0,
    ensures
        sum_grid(f, w, m) == sum_ray(f, px, py, dx, dy, j),
    decreases j,
{
    if j <= 0 {
        lemma_sum_grid_zero(f, w, m);
    } else {
        let qx = px - dx * (j - 1);
        let qy = py - dy * (j - 1);
        let h = (|x: int, y: int| if x == qx && y == qy {
            0int
        } else {
            f(x, y)
        });
        lemma_sum_grid_remove(f, h, w, m, qx, qy);
        assert forall|x: int, y: int|
            0 <= x < w && 0 <= y < m && #[trigger] h(x, y) != 0 implies exists|k: int|
            0 <= k < j - 1 && #[trigger] ray_hit(px, py, dx, dy, k, x, y) by {
            assert(f(x, y) != 0);
            let k = choose|k: int| 0 <= k < j && #[trigger] ray_hit(px, py, dx, dy, k, x, y);
            if k == j - 1 {
                assert(x == qx && y == qy);
                assert(h(x, y) == 0);
            }
            assert(0 <= k < j - 1 && ray_hit(px, py, dx, dy, k, x, y));
        }
        lemma_sum_grid_support(h, w, m, px, py, dx, dy, j - 1);
        assert forall|k: int| 0 <= k < j - 1 implies #[trigger] f(px - dx * k, py - dy * k) == h(
            px - dx * k,
            py - dy * k,
        ) by {
            if px - dx * k == qx && py - dy * k == qy {
                lemma_ray_points_distinct(px, py, dx, dy, k, j - 1);
            }
        }
        lemma_sum_ray_congr(f, h, px, py, dx, dy, j - 1);
        if !(0 <= qx < w && 0 <= qy < m) {
            assert(f(qx, qy) == 0);
        }
        assert(sum_ray(f, px, py, dx, dy, j) == sum_ray(f, px, py, dx, dy, j - 1) + f(qx, qy));
    }
}

/// Two grids that agree on every cell but (qx, qy) give equal counts along any
/// line that avoids (qx, qy).
pub proof fn lemma_count_line_frame(
    g1: GridModel,
    g2: GridModel,
    x0: int,
    y0: int,
    dx: int,
    dy: int,
    n: int,
    p: Player,
    qx: int,
    qy: int,
)
    requires
        forall|x: int, y: int| !(x == qx && y == qy) ==> #[trigger] cell(g1, x, y) == cell(g2, x, y),
        forall|k: int| 0 <= k < n ==> !(#[trigger] (x0 + dx * k) == qx && y0 + dy * k == qy),
    ensures
        count_line(g1, x0, y0, dx, dy, n, p) == count_line(g2, x0, y0, dx, dy, n, p),
    decreases n,
{
    if n > 0 {
        lemma_count_line_frame(g1, g2, x0, y0, dx, dy, n - 1, p, qx, qy);
        assert(!(x0 + dx * (n - 1) == qx && y0 + dy * (n - 1) == qy));
    }
}

/// The window at (x0, y0) contains the point (qx, qy).
pub open spec fn window_contains(
    win: int,
    x0: int,
    y0: int,
    dx: int,
    dy: int,
    qx: int,
    qy: int,
) -> bool {
    exists|k: int| 0 <= k < win && x0 + dx * k == qx && #[trigger] (y0 + dy * k) == qy
}

/// A window that avoids the one changed cell contributes alike in both grids,
/// and is a threat window in one exactly when it is in the other.
pub proof fn lemma_window_frame(
    g1: GridModel,
    g2: GridModel,
    size: int,
    win: int,
    x0: int,
    y0: int,
    dx: int,
    dy: int,
    qx: int,
    qy: int,
)
    requires
        forall|x: int, y: int| !(x == qx && y == qy) ==> #[trigger] cell(g1, x, y) == cell(g2, x, y),
        !window_contains(win, x0, y0, dx, dy, qx, qy),
    ensures
        window_contrib(g1, size, win, x0, y0, dx, dy) == window_contrib(
            g2,
            size,
            win,
            x0,
            y0,
            dx,
            dy,
        ),
        forall|p: Player| window_threat(g1, size, win, x0, y0, dx, dy, p) == window_threat(
            g2,
            size,
            win,
            x0,
            y0,
            dx,
            dy,
            p,
        ),
    decreases 0int,
{
    assert forall|k: int| 0 <= k < win implies !(#[trigger] (x0 + dx * k) == qx && y0 + dy * k
        == qy) by {
        if x0 + dx * k == qx && y0 + dy * k == qy {
            assert(window_contains(win, x0, y0, dx, dy, qx, qy));
        }
    }
    lemma_count_line_frame(g1, g2, x0, y0, dx, dy, win, Player::A, qx, qy);
    lemma_count_line_frame(g1, g2, x0, y0, dx, dy, win, Player::B, qx, qy);
    assert forall|p: Player| window_threat(g1, size, win, x0, y0, dx, dy, p) == window_threat(
        g2,
        size,
        win,
        x0,
        y0,
        dx,
        dy,
        p,
    ) by {
        lemma_count_line_frame(g1, g2, x0, y0, dx, dy, win, p, qx, qy);
        lemma_count_line_frame(g1, g2, x0, y0, dx, dy, win, p.spec_rotate(), qx, qy);
    }
}

/// Changing one cell moves the whole-board score and threat counts by exactly
/// what it moves the sums over the windows through that cell: every other
/// window keeps its contribution.
pub proof fn lemma_score_shift(g1: GridModel, g2: GridModel, size: int, win: int, qx: int, qy: int)
    requires
        2 <= win <= size,
        forall|x: int, y: int| !(x == qx && y == qy) ==> #[trigger] cell(g1, x, y) == cell(g2, x, y),
    ensures
        total_score(g2, size, win) - total_score(g1, size, win) == through_score(
            g2,
            size,
            win,
            qx,
            qy,
        ) - through_score(g1, size, win, qx, qy),
        forall|p: Player| #[trigger] total_threats(g2, size, win, p) - total_threats(
            g1,
            size,
            win,
            p,
        ) == through_threats(g2, size, win, qx, qy, p) - through_threats(g1, size, win, qx, qy, p),
{
    lemma_score_shift_dir(g1, g2, size, win, qx, qy, 0, 1);
    lemma_score_shift_dir(g1, g2, size, win, qx, qy, 1, 1);
    lemma_score_shift_dir(g1, g2, size, win, qx, qy, -1, 1);
    lemma_score_shift_dir(g1, g2, size, win, qx, qy, 1, 0);
    assert forall|p: Player| #[trigger] total_threats(g2, size, win, p) - total_threats(
        g1,
        size,
        win,
        p,
    ) == through_threats(g2, size, win, qx, qy, p) - through_threats(
        g1,
        size,
        win,
        qx,
        qy,
        p,
    ) by {
        lemma_threat_shift_dir(g1, g2, size, win, qx, qy, 0, 1, p);
        lemma_threat_shift_dir(g1, g2, size, win, qx, qy, 1, 1, p);
        lemma_threat_shift_dir(g1, g2, size, win, qx, qy, -1, 1, p);
        lemma_threat_shift_dir(g1, g2, size, win, qx, qy, 1, 0, p);
    }
}

proof fn lemma_score_shift_dir(
    g1: GridModel,
    g2: GridModel,
    size: int,
    win: int,
    qx: int,
    qy: int,
    dx: int,
    dy: int,
)
    requires
        2 <= win <= size,
        dir_ok(dx, dy),
        forall|x: int, y: int| !(x == qx && y == qy) ==> #[trigger] cell(g1, x, y) == cell(g2, x, y),
    ensures
        sum_grid(contrib_fn(g2, size, win, dx, dy), size, size) - sum_grid(
            contrib_fn(g1, size, win, dx, dy),
            size,
            size,
        ) == sum_ray(contrib_fn(g2, size, win, dx, dy), qx, qy, dx, dy, win) - sum_ray(
            contrib_fn(g1, size, win, dx, dy),
            qx,
            qy,
            dx,
            dy,
            win,
        ),
{
    let c1 = contrib_fn(g1, size, win, dx, dy);
    let c2 = contrib_fn(g2, size, win, dx, dy);
    let d = (|x: int, y: int| c2(x, y) - c1(x, y));
    lemma_sum_grid_sub(c2, c1, d, size, size);
    lemma_sum_ray_sub(c2, c1, d, qx, qy, dx, dy, win);
    assert forall|x: int, y: int| 0 <= x < size && 0 <= y < size && #[trigger] d(x, y) != 0
        implies exists|k: int| 0 <= k < win && #[trigger] ray_hit(qx, qy, dx, dy, k, x, y) by {
        if !window_contains(win, x, y, dx, dy, qx, qy) {
            lemma_window_frame(g1, g2, size, win, x, y, dx, dy, qx, qy);
        }
        let k = choose|k: int| 0 <= k < win && x + dx * k == qx && #[trigger] (y + dy * k) == qy;
        assert(ray_hit(qx, qy, dx, dy, k, x, y));
    }
    assert forall|x: int, y: int| !(0 <= x < size && 0 <= y < size) implies #[trigger] d(x, y)
        == 0 by {
        assert(!window_on_board(size, win, x, y, dx, dy));
    }
    lemma_sum_grid_support(d, size, size, qx, qy, dx, dy, win);
}

proof fn lemma_threat_shift_dir(
    g1: GridModel,
    g2: GridModel,
    size: int,
    win: int,
    qx: int,
    qy: int,
    dx: int,
    dy: int,
    p: Player,
)
    requires
        2 <= win <= size,
        dir_ok(dx, dy),
        forall|x: int, y: int| !(x == qx && y == qy) ==> #[trigger] cell(g1, x, y) == cell(g2, x, y),
    ensures
        sum_grid(threat_fn(g2, size, win, dx, dy, p), size, size) - sum_grid(
            threat_fn(g1, size, win, dx, dy, p),
            size,
            size,
        ) == sum_ray(threat_fn(g2, size, win, dx, dy, p), qx, qy, dx, dy, win) - sum_ray(
            threat_fn(g1, size, win, dx, dy, p),
            qx,
            qy,
            dx,
            dy,
            win,
        ),
{
    let c1 = threat_fn(g1, size, win, dx, dy, p);
    let c2 = threat_fn(g2, size, win, dx, dy, p);
    let d = (|x: int, y: int| c2(x, y) - c1(x, y));
    lemma_sum_grid_sub(c2, c1, d, size, size);
    lemma_sum_ray_sub(c2, c1, d, qx, qy, dx, dy, win);
    assert forall|x: int, y: int| 0 <= x < size && 0 <= y < size && #[trigger] d(x, y) != 0
        implies exists|k: int| 0 <= k < win && #[trigger] ray_hit(qx, qy, dx, dy, k, x, y) by {
        if !window_contains(win, x, y, dx, dy, qx, qy) {
            lemma_window_frame(g1, g2, size, win, x, y, dx, dy, qx, qy);
        }
        let k = choose|k: int| 0 <= k < win && x + dx * k == qx && #[trigger] (y + dy * k) == qy;
        assert(ray_hit(qx, qy, dx, dy, k, x, y));
    }
    assert forall|x: int, y: int| !(0 <= x < size && 0 <= y < size) implies #[trigger] d(x, y)
        == 0 by {
        assert(!window_on_board(size, win, x, y, dx, dy));
    }
    lemma_sum_grid_support(d, size, size, qx, qy, dx, dy, win);
}

pub proof fn lemma_count_line_bounds(
    g: GridModel,
    x0: int,
    y0: int,
    dx: int,
    dy: int,
    n: int,
    p: Player,
)
    ensures
        0 <= count_line(g, x0, y0, dx, dy, n, p) <= if n <= 0 {
            0int
        } else {
            n
        },
    decreases n,
{
    if n > 0 {
        lemma_count_line_bounds(g, x0, y0, dx, dy, n - 1, p);
    }
}

/// Every window contributes at most `win * win` in absolute value.
pub proof fn lemma_window_contrib_bound(
    g: GridModel,
    size: int,
    win: int,
    x0: int,
    y0: int,
    dx: int,
    dy: int,
)
    requires
        win >= 1,
    ensures
        -(win * win) <= window_contrib(g, size, win, x0, y0, dx, dy) <= win * win,
{
    lemma_count_line_bounds(g, x0, y0, dx, dy, win, Player::A);
    lemma_count_line_bounds(g, x0, y0, dx, dy, win, Player::B);
    let a = count_line(g, x0, y0, dx, dy, win, Player::A);
    let b = count_line(g, x0, y0, dx, dy, win, Player::B);
    assert(a * a <= win * win && b * b <= win * win && a * a >= 0 && b * b >= 0)
        by (nonlinear_arith)
        requires 0 <= a <= win, 0 <= b <= win;
}

pub proof fn lemma_sum_row_bound(f: spec_fn(int, int) -> int, y: int, n: int, lo: int, hi: int)
    requires
        lo <= 0 <= hi,
        forall|x: int| 0 <= x < n ==> lo <= #[trigger] f(x, y) <= hi,
    ensures
        n >= 0 ==> n * lo <= sum_row(f, y, n) <= n * hi,
    decreases n,
{
    if n > 0 {
        lemma_sum_row_bound(f, y, n - 1, lo, hi);
        assert(sum_row(f, y, n) == sum_row(f, y, n - 1) + f(n - 1, y));
        assert(lo <= f(n - 1, y) <= hi);
        assert((n - 1) * lo + lo == n * lo && (n - 1) * hi + hi == n * hi) by (nonlinear_arith);
    } else if n == 0 {
        assert(n * lo == 0 && n * hi == 0) by (nonlinear_arith)
            requires n == 0;
    }
}

pub proof fn lemma_sum_grid_bound(f: spec_fn(int, int) -> int, w: int, m: int, lo: int, hi: int)
    requires
        lo <= 0 <= hi,
        w >= 0,
        forall|x: int, y: int| 0 <= x < w && 0 <= y < m ==> lo <= #[trigger] f(x, y) <= hi,
    ensures
        m >= 0 ==> m * (w * lo) <= sum_grid(f, w, m) <= m * (w * hi),
    decreases m,
{
    if m > 0 {
        lemma_sum_grid_bound(f, w, m - 1, lo, hi);
        lemma_sum_row_bound(f, m - 1, w, lo, hi);
        assert(sum_grid(f, w, m) == sum_grid(f, w, m - 1) + sum_row(f, m - 1, w));
        assert((m - 1) * (w * lo) + w * lo == m * (w * lo) && (m - 1) * (w * hi) + w * hi == m * (
        w * hi)) by (nonlinear_arith);
        assert(w * lo <= 0 <= w * hi) by (nonlinear_arith)
            requires w >= 0, lo <= 0 <= hi;
    } else if m == 0 {
        assert(m * (w * lo) == 0 && m * (w * hi) == 0) by (nonlinear_arith)
            requires m == 0;
    }
}

pub proof fn lemma_sum_ray_bound(
    f: spec_fn(int, int) -> int,
    px: int,
    py: int,
    dx: int,
    dy: int,
    n: int,
    lo: int,
    hi: int,
)
    requires
        lo <= 0 <= hi,
        forall|k: int| 0 <= k < n ==> lo <= #[trigger] f(px - dx * k, py - dy * k) <= hi,
    ensures
        n >= 0 ==> n * lo <= sum_ray(f, px, py, dx, dy, n) <= n * hi,
    decreases n,
{
    if n > 0 {
        lemma_sum_ray_bound(f, px, py, dx, dy, n - 1, lo, hi);
        assert(sum_ray(f, px, py, dx, dy, n) == sum_ray(f, px, py, dx, dy, n - 1) + f(
            px - dx * (n - 1),
            py - dy * (n - 1),
        ));
        assert(lo <= f(px - dx * (n - 1), py - dy * (n - 1)) <= hi);
        assert((n - 1) * lo + lo == n * lo && (n - 1) * hi + hi == n * hi) by (nonlinear_arith);
    } else if n == 0 {
        assert(n * lo == 0 && n * hi == 0) by (nonlinear_arith)
            requires n == 0;
    }
}

/// Concrete machine bounds: with the board no larger than 36 the whole-board
/// score fits comfortably in an `i32`, and so do the threat counts and the
/// sums over the windows through one cell.
pub proof fn lemma_score_bounds(g: GridModel, size: int, win: int, px: int, py: int, p: Player)
    requires
        2 <= win <= size <= 36,
    ensures
        -6718464 <= total_score(g, size, win) <= 6718464,
        0 <= total_threats(g, size, win, p) <= 5184,
        -186624 <= through_score(g, size, win, px, py) <= 186624,
        0 <= through_threats(g, size, win, px, py, p) <= 144,
{
    lemma_dir_bounds(g, size, win, px, py, p, 0, 1);
    lemma_dir_bounds(g, size, win, px, py, p, 1, 1);
    lemma_dir_bounds(g, size, win, px, py, p, -1, 1);
    lemma_dir_bounds(g, size, win, px, py, p, 1, 0);
}

/// The per-orientation pieces of `lemma_score_bounds`.
pub open spec fn grid_dir_bounds(
    g: GridModel,
    size: int,
    win: int,
    px: int,
    py: int,
    p: Player,
    dx: int,
    dy: int,
) -> bool {
    &&& -1679616 <= sum_grid(contrib_fn(g, size, win, dx, dy), size, size) <= 1679616
    &&& 0 <= sum_grid(threat_fn(g, size, win, dx, dy, p), size, size) <= 1296
    &&& -46656 <= sum_ray(contrib_fn(g, size, win, dx, dy), px, py, dx, dy, win) <= 46656
    &&& 0 <= sum_ray(threat_fn(g, size, win, dx, dy, p), px, py, dx, dy, win) <= 36
}

proof fn lemma_dir_bounds(
    g: GridModel,
    size: int,
    win: int,
    px: int,
    py: int,
    p: Player,
    dx: int,
    dy: int,
)
    requires
        2 <= win <= size <= 36,
        dir_ok(dx, dy),
    ensures
        grid_dir_bounds(g, size, win, px, py, p, dx, dy),
{
    let cf = contrib_fn(g, size, win, dx, dy);
    let tf = threat_fn(g, size, win, dx, dy, p);
    assert forall|x: int, y: int| 0 <= x < size && 0 <= y < size implies -1296 <= #[trigger] cf(
        x,
        y,
    ) <= 1296 by {
        lemma_window_contrib_bound(g, size, win, x, y, dx, dy);
        assert(win * win <= 1296) by (nonlinear_arith)
            requires 2 <= win <= 36;
    }
    assert forall|x: int, y: int| 0 <= x < size && 0 <= y < size implies 0 <= #[trigger] tf(x, y)
        <= 1 by {}
    lemma_sum_grid_bound(cf, size, size, -1296, 1296);
    lemma_sum_grid_bound(tf, size, size, 0, 1);
    assert(size * (size * 1296) <= 1679616 && size * (size * -1296) >= -1679616 && size * (size
        * 1) <= 1296) by (nonlinear_arith)
        requires 2 <= size <= 36;
    assert forall|k: int| 0 <= k < win implies -1296 <= #[trigger] cf(px - dx * k, py - dy * k)
        <= 1296 by {
        lemma_window_contrib_bound(g, size, win, px - dx * k, py - dy * k, dx, dy);
        assert(win * win <= 1296) by (nonlinear_arith)
            requires 2 <= win <= 36;
    }
    assert forall|k: int| 0 <= k < win implies 0 <= #[trigger] tf(px - dx * k, py - dy * k)
        <= 1 by {}
    lemma_sum_ray_bound(cf, px, py, dx, dy, win, -1296, 1296);
    lemma_sum_ray_bound(tf, px, py, dx, dy, win, 0, 1);
    assert(win * 1296 <= 46656 && win * -1296 >= -46656) by (nonlinear_arith)
        requires 2 <= win <= 36;
}

/// An empty grid scores zero and holds no threats.
pub proof fn lemma_empty_grid(g: GridModel, size: int, win: int)
    requires
        2 <= win <= size,
        forall|x: int, y: int| #[trigger] cell(g, x, y) == None::<Player>,
    ensures
        total_score(g, size, win) == 0,
        forall|p: Player| #[trigger] total_threats(g, size, win, p) == 0,
{
    assert forall|p: Player| #[trigger] total_threats(g, size, win, p) == 0 by {
        lemma_empty_dir(g, size, win, p, 0, 1);
        lemma_empty_dir(g, size, win, p, 1, 1);
        lemma_empty_dir(g, size, win, p, -1, 1);
        lemma_empty_dir(g, size, win, p, 1, 0);
    }
    lemma_empty_dir(g, size, win, Player::A, 0, 1);
    lemma_empty_dir(g, size, win, Player::A, 1, 1);
    lemma_empty_dir(g, size, win, Player::A, -1, 1);
    lemma_empty_dir(g, size, win, Player::A, 1, 0);
}

proof fn lemma_count_line_empty(
    g: GridModel,
    x0: int,
    y0: int,
    dx: int,
    dy: int,
    n: int,
    p: Player,
)
    requires
        forall|x: int, y: int| #[trigger] cell(g, x, y) == None::<Player>,
    ensures
        count_line(g, x0, y0, dx, dy, n, p) == 0,
    decreases n,
{
    if n > 0 {
        lemma_count_line_empty(g, x0, y0, dx, dy, n - 1, p);
    }
}

proof fn lemma_empty_dir(g: GridModel, size: int, win: int, p: Player, dx: int, dy: int)
    requires
        2 <= win <= size,
        forall|x: int, y: int| #[trigger] cell(g, x, y) == None::<Player>,
    ensures
        sum_grid(contrib_fn(g, size, win, dx, dy), size, size) == 0,
        sum_grid(threat_fn(g, size, win, dx, dy, p), size, size) == 0,
{
    let cf = contrib_fn(g, size, win, dx, dy);
    let tf = threat_fn(g, size, win, dx, dy, p);
    assert forall|x: int, y: int| 0 <= x < size && 0 <= y < size implies #[trigger] cf(x, y)
        == 0 by {
        lemma_count_line_empty(g, x, y, dx, dy, win, Player::A);
        lemma_count_line_empty(g, x, y, dx, dy, win, Player::B);
    }
    assert forall|x: int, y: int| 0 <= x < size && 0 <= y < size implies #[trigger] tf(x, y)
        == 0 by {
        lemma_count_line_empty(g, x, y, dx, dy, win, p);
        lemma_count_line_empty(g, x, y, dx, dy, win, p.spec_rotate());
    }
    lemma_sum_grid_zero(cf, size, size);
    lemma_sum_grid_zero(tf, size, size);
}

/// A line counts `n` stones of `p` exactly when every one of its `n` cells
/// holds a stone of `p`.
pub proof fn lemma_count_line_full(
    g: GridModel,
    x0: int,
    y0: int,
    dx: int,
    dy: int,
    n: int,
    p: Player,
)
    ensures
        (count_line(g, x0, y0, dx, dy, n, p) == n && n >= 0) <==> (n >= 0 && forall|k: int|
            0 <= k < n ==> #[trigger] cell(g, x0 + dx * k, y0 + dy * k) == Some(p)),
    decreases n,
{
    lemma_count_line_bounds(g, x0, y0, dx, dy, n, p);
    if n > 0 {
        lemma_count_line_full(g, x0, y0, dx, dy, n - 1, p);
        lemma_count_line_bounds(g, x0, y0, dx, dy, n - 1, p);
    }
}

/// Stones of `p` among the cells (px + dx*m, py + dy*m) for m in [lo, hi):
/// the sliding span that the incremental scan maintains.
pub open spec fn count_seg(
    g: GridModel,
    px: int,
    py: int,
    dx: int,
    dy: int,
    lo: int,
    hi: int,
    p: Player,
) -> int
    decreases hi - lo,
{
    if hi <= lo {
        0
    } else {
        count_seg(g, px, py, dx, dy, lo, hi - 1, p) + if cell(
            g,
            px + dx * (hi - 1),
            py + dy * (hi - 1),
        ) == Some(p) {
            1int
        } else {
            0int
        }
    }
}

/// The count over the window starting at the k-th ray point equals a segment
/// count in coordinates centered at (px, py).
pub proof fn lemma_count_line_as_seg(
    g: GridModel,
    px: int,
    py: int,
    dx: int,
    dy: int,
    k: int,
    n: int,
    p: Player,
)
    ensures
        count_line(g, px - dx * k, py - dy * k, dx, dy, n, p) == count_seg(
            g,
            px,
            py,
            dx,
            dy,
            0 - k,
            n - k,
            p,
        ),
    decreases n,
{
    if n > 0 {
        lemma_count_line_as_seg(g, px, py, dx, dy, k, n - 1, p);
        assert((px - dx * k) + dx * (n - 1) == px + dx * ((n - k) - 1) && (py - dy * k) + dy * (n
            - 1) == py + dy * ((n - k) - 1)) by (nonlinear_arith);
    }
}

/// Any cell of an on-board window is itself on the board: the four
/// orientations are monotone, so the end cells bound every cell.
pub proof fn lemma_window_cell_in_range(
    size: int,
    win: int,
    x0: int,
    y0: int,
    dx: int,
    dy: int,
    k: int,
)
    requires
        dir_ok(dx, dy),
        window_on_board(size, win, x0, y0, dx, dy),
        0 <= k <= win - 1,
    ensures
        in_range(size, x0 + dx * k, y0 + dy * k),
{
    if dy == 1 {
        assert(dy * k == k && dy * (win - 1) == win - 1) by (nonlinear_arith)
            requires dy == 1;
    } else {
        assert(dy * k == 0 && dy * (win - 1) == 0) by (nonlinear_arith)
            requires dy == 0;
    }
    if dx == 1 {
        assert(dx * k == k && dx * (win - 1) == win - 1) by (nonlinear_arith)
            requires dx == 1;
    } else if dx == -1 {
        assert(dx * k == 0 - k && dx * (win - 1) == 0 - (win - 1)) by (nonlinear_arith)
            requires dx == -1;
    } else {
        assert(dx * k == 0 && dx * (win - 1) == 0) by (nonlinear_arith)
            requires dx == 0;
    }
}

/// No on-board window passes through a position off the board, so the sums
/// over its windows vanish and no win passes through it.
pub proof fn lemma_oob_through(g: GridModel, size: int, win: int, px: int, py: int)
    requires
        2 <= win <= size,
        !in_range(size, px, py),
    ensures
        through_score(g, size, win, px, py) == 0,
        forall|p: Player| #[trigger] through_threats(g, size, win, px, py, p) == 0,
        forall|p: Player| !wins_through(g, size, win, px, py, p),
{
    assert forall|dx: int, dy: int, k: int| dir_ok(dx, dy) && 0 <= k < win implies
        !(#[trigger] window_on_board(size, win, px - dx * k, py - dy * k, dx, dy)) by {
        if window_on_board(size, win, px - dx * k, py - dy * k, dx, dy) {
            lemma_window_cell_in_range(size, win, px - dx * k, py - dy * k, dx, dy, k);
            assert((px - dx * k) + dx * k == px && (py - dy * k) + dy * k == py);
        }
    }
    lemma_oob_dir(g, size, win, px, py, 0, 1);
    lemma_oob_dir(g, size, win, px, py, 1, 1);
    lemma_oob_dir(g, size, win, px, py, -1, 1);
    lemma_oob_dir(g, size, win, px, py, 1, 0);
    assert forall|p: Player| #[trigger] through_threats(g, size, win, px, py, p) == 0 by {
        lemma_oob_dir_threat(g, size, win, px, py, 0, 1, p);
        lemma_oob_dir_threat(g, size, win, px, py, 1, 1, p);
        lemma_oob_dir_threat(g, size, win, px, py, -1, 1, p);
        lemma_oob_dir_threat(g, size, win, px, py, 1, 0, p);
    }
}

proof fn lemma_oob_dir(g: GridModel, size: int, win: int, px: int, py: int, dx: int, dy: int)
    requires
        2 <= win <= size,
        dir_ok(dx, dy),
        forall|k: int| 0 <= k < win ==> !(#[trigger] window_on_board(
            size,
            win,
            px - dx * k,
            py - dy * k,
            dx,
            dy,
        )),
    ensures
        sum_ray(contrib_fn(g, size, win, dx, dy), px, py, dx, dy, win) == 0,
{
    let cf = contrib_fn(g, size, win, dx, dy);
    assert forall|k: int| 0 <= k < win implies #[trigger] cf(px - dx * k, py - dy * k) == 0 by {
        assert(!window_on_board(size, win, px - dx * k, py - dy * k, dx, dy));
    }
    lemma_sum_ray_zero(cf, px, py, dx, dy, win);
}

proof fn lemma_oob_dir_threat(
    g: GridModel,
    size: int,
    win: int,
    px: int,
    py: int,
    dx: int,
    dy: int,
    p: Player,
)
    requires
        2 <= win <= size,
        dir_ok(dx, dy),
        forall|k: int| 0 <= k < win ==> !(#[trigger] window_on_board(
            size,
            win,
            px - dx * k,
            py - dy * k,
            dx,
            dy,
        )),
    ensures
        sum_ray(threat_fn(g, size, win, dx, dy, p), px, py, dx, dy, win) == 0,
{
    let tf = threat_fn(g, size, win, dx, dy, p);
    assert forall|k: int| 0 <= k < win implies #[trigger] tf(px - dx * k, py - dy * k) == 0 by {
        assert(!window_on_board(size, win, px - dx * k, py - dy * k, dx, dy));
    }
    lemma_sum_ray_zero(tf, px, py, dx, dy, win);
}

/// A complete window through a position belongs to the stone standing on it.
pub proof fn lemma_wins_through_owner(
    g: GridModel,
    size: int,
    win: int,
    px: int,
    py: int,
    p: Player,
)
    requires
        2 <= win <= size,
        wins_through(g, size, win, px, py, p),
    ensures
        cell(g, px, py) == Some(p),
{
    let (k, dx, dy) = choose|k: int, dx: int, dy: int|
        0 <= k < win && dir_ok(dx, dy) && #[trigger] window_win(
            g,
            size,
            win,
            px - dx * k,
            py - dy * k,
            dx,
            dy,
            p,
        );
    lemma_count_line_full(g, px - dx * k, py - dy * k, dx, dy, win, p);
    assert(cell(g, (px - dx * k) + dx * k, (py - dy * k) + dy * k) == Some(p));
    assert((px - dx * k) + dx * k == px && (py - dy * k) + dy * k == py);
}

/// A window holds at most `n` stones in all: the two players' counts share it.
pub proof fn lemma_count_line_pair(
    g: GridModel,
    x0: int,
    y0: int,
    dx: int,
    dy: int,
    n: int,
)
    requires
        n >= 0,
    ensures
        count_line(g, x0, y0, dx, dy, n, Player::A) + count_line(g, x0, y0, dx, dy, n, Player::B)
            <= n,
    decreases n,
{
    if n > 0 {
        lemma_count_line_pair(g, x0, y0, dx, dy, n - 1);
    }
}

pub proof fn lemma_count_seg_bounds(
    g: GridModel,
    px: int,
    py: int,
    dx: int,
    dy: int,
    lo: int,
    hi: int,
    p: Player,
)
    ensures
        0 <= count_seg(g, px, py, dx, dy, lo, hi, p) <= if hi <= lo {
            0int
        } else {
            hi - lo
        },
    decreases hi - lo,
{
    if hi > lo {
        lemma_count_seg_bounds(g, px, py, dx, dy, lo, hi - 1, p);
    }
}

/// A segment count can be peeled at its low end as well.
pub proof fn lemma_count_seg_shrink_lo(
    g: GridModel,
    px: int,
    py: int,
    dx: int,
    dy: int,
    lo: int,
    hi: int,
    p: Player,
)
    requires
        lo < hi,
    ensures
        count_seg(g, px, py, dx, dy, lo, hi, p) == count_seg(g, px, py, dx, dy, lo + 1, hi, p)
            + if cell(g, px + dx * lo, py + dy * lo) == Some(p) {
            1int
        } else {
            0int
        },
    decreases hi - lo,
{
    if lo + 1 < hi {
        lemma_count_seg_shrink_lo(g, px, py, dx, dy, lo, hi - 1, p);
        assert(count_seg(g, px, py, dx, dy, lo, hi, p) == count_seg(g, px, py, dx, dy, lo, hi - 1, p)
            + if cell(g, px + dx * (hi - 1), py + dy * (hi - 1)) == Some(p) { 1int } else { 0int });
        assert(count_seg(g, px, py, dx, dy, lo + 1, hi, p) == count_seg(
            g, px, py, dx, dy, lo + 1, hi - 1, p,
        ) + if cell(g, px + dx * (hi - 1), py + dy * (hi - 1)) == Some(p) { 1int } else { 0int });
    } else {
        assert(count_seg(g, px, py, dx, dy, lo + 1, hi, p) == 0);
        assert(count_seg(g, px, py, dx, dy, lo, hi - 1, p) == 0);
        assert(dx * (hi - 1) == dx * lo && dy * (hi - 1) == dy * lo);
    }
}

/// Numeric bounds on every partial ray sum, for one orientation: the scanner's
/// running totals stay far inside `i32`.
pub proof fn lemma_ray_partial_bounds(
    g: GridModel,
    size: int,
    win: int,
    px: int,
    py: int,
    dx: int,
    dy: int,
    p: Player,
)
    requires
        2 <= win <= size <= 36,
    ensures
        forall|n: int| 0 <= n <= win ==> -46656 <= #[trigger] sum_ray(
            contrib_fn(g, size, win, dx, dy),
            px,
            py,
            dx,
            dy,
            n,
        ) <= 46656,
        forall|n: int| 0 <= n <= win ==> 0 <= #[trigger] sum_ray(
            threat_fn(g, size, win, dx, dy, p),
            px,
            py,
            dx,
            dy,
            n,
        ) <= 36,
{
    let cf = contrib_fn(g, size, win, dx, dy);
    let tf = threat_fn(g, size, win, dx, dy, p);
    assert forall|k: int| 0 <= k implies -1296 <= #[trigger] cf(px - dx * k, py - dy * k)
        <= 1296 by {
        lemma_window_contrib_bound(g, size, win, px - dx * k, py - dy * k, dx, dy);
        assert(win * win <= 1296) by (nonlinear_arith)
            requires 2 <= win <= 36;
    }
    assert forall|k: int| 0 <= k implies 0 <= #[trigger] tf(px - dx * k, py - dy * k) <= 1 by {}
    assert forall|n: int| 0 <= n <= win implies -46656 <= #[trigger] sum_ray(
        cf,
        px,
        py,
        dx,
        dy,
        n,
    ) <= 46656 by {
        lemma_sum_ray_bound(cf, px, py, dx, dy, n, -1296, 1296);
        assert(n * 1296 <= 46656 && n * -1296 >= -46656) by (nonlinear_arith)
            requires 0 <= n <= 36;
    }
    assert forall|n: int| 0 <= n <= win implies 0 <= #[trigger] sum_ray(tf, px, py, dx, dy, n)
        <= 36 by {
        lemma_sum_ray_bound(tf, px, py, dx, dy, n, 0, 1);
        assert(n * 1 <= 36) by (nonlinear_arith)
            requires 0 <= n <= 36;
    }
}

} // verus!
