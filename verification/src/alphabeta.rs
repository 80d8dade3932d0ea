//! A depth-limited alpha-beta agent for boards of side at most five, with
//! iterative deepening, a transposition table keyed by Zobrist hashes, and a
//! heuristic that scores the open windows of three cells.

use vstd::prelude::*;
use crate::clock::{clock_now, time_is_up};
use crate::zobrist::{ZobristTable, board_hash};
use crate::board::{other, piece_of, with_cell};
use std::time::Instant;
use crate::board::{
    Board, Cell, Player, board_ok, count_if, game_over_of, is_empty_cell,
    lemma_moves_are_empty_cells, moves_of, score_of,
};

verus! {

broadcast use vstd::seq_lib::group_seq_properties;

/// A window: three cells in a line.
pub type Window = [(usize, usize); 3];

// ---------------------------------------------------------------------------
// Windows
// ---------------------------------------------------------------------------

/// None of the three cells holds a wall.
pub open spec fn wall_free(c: Seq<Seq<Cell>>, a: (int, int), b: (int, int), d: (int, int)) -> bool {
    &&& c[a.0][a.1] != Cell::Wall
    &&& c[b.0][b.1] != Cell::Wall
    &&& c[d.0][d.1] != Cell::Wall
}

/// The window through `(i, j)`, `(i + di, j + dj)`, `(i + 2di, j + 2dj)`.
pub open spec fn window_from(i: int, j: int, di: int, dj: int) -> Window {
    [
        (i as usize, j as usize),
        ((i + di) as usize, (j + dj) as usize),
        ((i + 2 * di) as usize, (j + 2 * dj) as usize),
    ]
}

/// The window starting at `(i, j)` in direction `(di, dj)`, if it lies on the
/// board and holds no wall.
pub open spec fn window_if_open(c: Seq<Seq<Cell>>, i: int, j: int, di: int, dj: int) -> Seq<Window> {
    if 0 <= i + 2 * di < c.len() && 0 <= j + 2 * dj < c.len() && wall_free(
        c,
        (i, j),
        (i + di, j + dj),
        (i + 2 * di, j + 2 * dj),
    ) {
        seq![window_from(i, j, di, dj)]
    } else {
        Seq::empty()
    }
}

/// The open windows starting at `(i, j)`: rightwards, downwards, down-right,
/// down-left.
pub open spec fn windows_at(c: Seq<Seq<Cell>>, i: int, j: int) -> Seq<Window> {
    window_if_open(c, i, j, 0, 1) + window_if_open(c, i, j, 1, 0) + window_if_open(c, i, j, 1, 1)
        + window_if_open(c, i, j, 1, -1)
}

/// The open windows starting in row `i` among its first `m` columns.
pub open spec fn windows_in_row(c: Seq<Seq<Cell>>, i: int, m: int) -> Seq<Window>
    decreases m,
{
    if m <= 0 {
        Seq::empty()
    } else {
        windows_in_row(c, i, m - 1) + windows_at(c, i, m - 1)
    }
}

/// The open windows starting in the first `k` rows.
pub open spec fn windows_in_rows(c: Seq<Seq<Cell>>, k: int) -> Seq<Window>
    decreases k,
{
    if k <= 0 {
        Seq::empty()
    } else {
        windows_in_rows(c, k - 1) + windows_in_row(c, k - 1, c.len() as int)
    }
}

/// All windows of three cells in a line that hold no wall, by starting cell in
/// row-major order.
pub open spec fn windows_of(c: Seq<Seq<Cell>>) -> Seq<Window> {
    windows_in_rows(c, c.len() as int)
}

/// Every cell of every window lies on a board of side `n`.
pub open spec fn windows_fit(ws: Seq<Window>, n: int) -> bool {
    forall|t: int, k: int| 0 <= t < ws.len() && 0 <= k < 3 ==> (#[trigger] ws[t][k]).0 < n && ws[t][k].1 < n
}

proof fn lemma_windows_in_row(c: Seq<Seq<Cell>>, i: int, m: int)
    requires
        board_ok(c),
        0 <= i < c.len(),
        0 <= m <= c.len(),
    ensures
        windows_fit(windows_in_row(c, i, m), c.len() as int),
        windows_in_row(c, i, m).len() <= 4 * m,
    decreases m,
{
    if m > 0 {
        lemma_windows_in_row(c, i, m - 1);
        let a = windows_in_row(c, i, m - 1);
        let b = windows_at(c, i, m - 1);
        let w = windows_in_row(c, i, m);
        assert forall|t: int, k: int| 0 <= t < w.len() && 0 <= k < 3 implies (#[trigger] w[t][k]).0 < c.len() && w[t][k].1 < c.len() by {
            if t >= a.len() {
                assert(w[t] == b[t - a.len()]);
            } else {
                assert(w[t] == a[t]);
            }
        }
    }
}

proof fn lemma_windows_in_rows(c: Seq<Seq<Cell>>, k: int)
    requires
        board_ok(c),
        0 <= k <= c.len(),
    ensures
        windows_fit(windows_in_rows(c, k), c.len() as int),
        windows_in_rows(c, k).len() <= 64 * k,
    decreases k,
{
    if k > 0 {
        lemma_windows_in_rows(c, k - 1);
        lemma_windows_in_row(c, k - 1, c.len() as int);
        let a = windows_in_rows(c, k - 1);
        let b = windows_in_row(c, k - 1, c.len() as int);
        let w = windows_in_rows(c, k);
        assert forall|t: int, q: int| 0 <= t < w.len() && 0 <= q < 3 implies (#[trigger] w[t][q]).0 < c.len() && w[t][q].1 < c.len() by {
            if t >= a.len() {
                assert(w[t] == b[t - a.len()]);
            } else {
                assert(w[t] == a[t]);
            }
        }
    }
}

/// The side of the largest board this agent plays on.
pub const MAX_SIDE: usize = 5;

/// The windows of a board all lie on it, and there are at most 1024 of them.
pub proof fn lemma_windows_fit(c: Seq<Seq<Cell>>)
    requires
        board_ok(c),
    ensures
        windows_fit(windows_of(c), c.len() as int),
        windows_of(c).len() <= 1024,
{
    lemma_windows_in_rows(c, c.len() as int);
}

/// Window `w` holds no wall on `c`.
pub open spec fn window_open(c: Seq<Seq<Cell>>, w: Window) -> bool {
    wall_free(c, (w[0].0 as int, w[0].1 as int), (w[1].0 as int, w[1].1 as int), (w[2].0 as int, w[2].1 as int))
}

/// `c2` has the side of `c1` and a wall on every cell where `c1` has one.
pub open spec fn walls_kept(c1: Seq<Seq<Cell>>, c2: Seq<Seq<Cell>>) -> bool {
    &&& c1.len() == c2.len()
    &&& forall|i: int, j: int|
        0 <= i < c1.len() && 0 <= j < c1.len() && #[trigger] c1[i][j] == Cell::Wall ==> c2[i][j] == Cell::Wall
}

/// The windows open on `c2`, as a predicate.
pub open spec fn open_on(c2: Seq<Seq<Cell>>) -> spec_fn(Window) -> bool {
    |w: Window| window_open(c2, w)
}

proof fn lemma_filter_single(w: Window, p: spec_fn(Window) -> bool)
    ensures
        seq![w].filter(p) == if p(w) {
            seq![w]
        } else {
            Seq::<Window>::empty()
        },
        Seq::<Window>::empty().filter(p) == Seq::<Window>::empty(),
{
    Seq::<Window>::empty().lemma_filter_len(p);
    Seq::<Window>::empty().lemma_filter_push(w, p);
    assert(Seq::<Window>::empty().push(w) =~= seq![w]);
    assert(Seq::<Window>::empty().filter(p) =~= Seq::<Window>::empty());
}

proof fn lemma_window_walls(c1: Seq<Seq<Cell>>, c2: Seq<Seq<Cell>>, i: int, j: int, di: int, dj: int)
    requires
        walls_kept(c1, c2),
        board_ok(c1),
        board_ok(c2),
        0 <= i < c1.len(),
        0 <= j < c1.len(),
        0 <= di <= 1,
        -1 <= dj <= 1,
    ensures
        window_if_open(c2, i, j, di, dj) == window_if_open(c1, i, j, di, dj).filter(open_on(c2)),
{
    let w = window_from(i, j, di, dj);
    lemma_filter_single(w, open_on(c2));
    let n = c1.len() as int;
    if 0 <= i + 2 * di < n && 0 <= j + 2 * dj < n {
        assert(window_open(c2, w) == wall_free(c2, (i, j), (i + di, j + dj), (i + 2 * di, j + 2 * dj)));
        if wall_free(c2, (i, j), (i + di, j + dj), (i + 2 * di, j + 2 * dj)) {
            assert(c1[i][j] != Cell::Wall);
            assert(c1[i + di][j + dj] != Cell::Wall);
            assert(c1[i + 2 * di][j + 2 * dj] != Cell::Wall);
        }
    }
}

proof fn lemma_row_walls(c1: Seq<Seq<Cell>>, c2: Seq<Seq<Cell>>, i: int, m: int)
    requires
        walls_kept(c1, c2),
        board_ok(c1),
        board_ok(c2),
        0 <= i < c1.len(),
        0 <= m <= c1.len(),
    ensures
        windows_in_row(c2, i, m) == windows_in_row(c1, i, m).filter(open_on(c2)),
    decreases m,
{
    let p = open_on(c2);
    if m <= 0 {
        lemma_filter_single(window_from(0, 0, 0, 0), p);
    } else {
        lemma_row_walls(c1, c2, i, m - 1);
        let j = m - 1;
        lemma_window_walls(c1, c2, i, j, 0, 1);
        lemma_window_walls(c1, c2, i, j, 1, 0);
        lemma_window_walls(c1, c2, i, j, 1, 1);
        lemma_window_walls(c1, c2, i, j, 1, -1);
        let a = window_if_open(c1, i, j, 0, 1);
        let b = window_if_open(c1, i, j, 1, 0);
        let e = window_if_open(c1, i, j, 1, 1);
        let f = window_if_open(c1, i, j, 1, -1);
        Seq::filter_distributes_over_add(a, b, p);
        Seq::filter_distributes_over_add(a + b, e, p);
        Seq::filter_distributes_over_add(a + b + e, f, p);
        Seq::filter_distributes_over_add(windows_in_row(c1, i, m - 1), windows_at(c1, i, j), p);
    }
}

proof fn lemma_rows_walls(c1: Seq<Seq<Cell>>, c2: Seq<Seq<Cell>>, k: int)
    requires
        walls_kept(c1, c2),
        board_ok(c1),
        board_ok(c2),
        0 <= k <= c1.len(),
    ensures
        windows_in_rows(c2, k) == windows_in_rows(c1, k).filter(open_on(c2)),
    decreases k,
{
    let p = open_on(c2);
    if k <= 0 {
        lemma_filter_single(window_from(0, 0, 0, 0), p);
    } else {
        lemma_rows_walls(c1, c2, k - 1);
        lemma_row_walls(c1, c2, k - 1, c1.len() as int);
        Seq::filter_distributes_over_add(windows_in_rows(c1, k - 1), windows_in_row(c1, k - 1, c1.len() as int), p);
    }
}

/// Adding walls only removes windows, and pieces play no part: on a board of
/// the same side with a wall wherever `c1` has one, the windows are those of
/// `c1` that hold no wall of `c2`, in the same order.
pub proof fn law_walls_only_remove_windows(c1: Seq<Seq<Cell>>, c2: Seq<Seq<Cell>>)
    requires
        board_ok(c1),
        board_ok(c2),
        walls_kept(c1, c2),
    ensures
        windows_of(c2) == windows_of(c1).filter(open_on(c2)),
{
    lemma_rows_walls(c1, c2, c1.len() as int);
}

// ---------------------------------------------------------------------------
// Heuristic
// ---------------------------------------------------------------------------

/// How many cells of window `w` hold `p`.
pub open spec fn pieces_in(c: Seq<Seq<Cell>>, w: Window, p: Cell) -> int {
    count_if(c[w[0].0 as int][w[0].1 as int] == p) + count_if(c[w[1].0 as int][w[1].1 as int] == p)
        + count_if(c[w[2].0 as int][w[2].1 as int] == p)
}

/// The points of a window that holds `k` pieces of one player only.
pub open spec fn window_points(k: int) -> int {
    if k == 3 {
        1000
    } else if k == 2 {
        50
    } else if k == 1 {
        5
    } else {
        0
    }
}

/// A window held by X alone counts for X, one held by O alone counts for O, a
/// shared or empty one counts nothing.
pub open spec fn window_value(c: Seq<Seq<Cell>>, w: Window) -> int {
    let x = pieces_in(c, w, Cell::X);
    let o = pieces_in(c, w, Cell::O);
    if x > 0 && o > 0 {
        0
    } else if x > 0 {
        window_points(x)
    } else if o > 0 {
        -window_points(o)
    } else {
        0
    }
}

/// The value of the first `k` windows.
pub open spec fn windows_value(c: Seq<Seq<Cell>>, ws: Seq<Window>, k: int) -> int
    decreases k,
{
    if k <= 0 {
        0
    } else {
        windows_value(c, ws, k - 1) + window_value(c, ws[k - 1])
    }
}

pub open spec fn abs(x: int) -> int {
    if x < 0 {
        -x
    } else {
        x
    }
}

/// The bonus of a piece on `(i, j)`: the side length minus the cell's
/// Manhattan distance to the centre, for X, and its opposite for O.
pub open spec fn center_bonus(c: Seq<Seq<Cell>>, i: int, j: int) -> int {
    let n = c.len() as int;
    let center = n / 2;
    let bonus = n - (abs(i - center) + abs(j - center));
    if c[i][j] == Cell::X {
        bonus
    } else if c[i][j] == Cell::O {
        -bonus
    } else {
        0
    }
}

/// The centre bonuses of row `i` among its first `m` columns.
pub open spec fn bonus_in_row(c: Seq<Seq<Cell>>, i: int, m: int) -> int
    decreases m,
{
    if m <= 0 {
        0
    } else {
        bonus_in_row(c, i, m - 1) + center_bonus(c, i, m - 1)
    }
}

/// The centre bonuses of the first `k` rows.
pub open spec fn bonus_in_rows(c: Seq<Seq<Cell>>, k: int) -> int
    decreases k,
{
    if k <= 0 {
        0
    } else {
        bonus_in_rows(c, k - 1) + bonus_in_row(c, k - 1, c.len() as int)
    }
}

/// The heuristic estimate of a position: the windows' values plus the centre
/// bonuses; positive favours X.
pub open spec fn heuristic_value(c: Seq<Seq<Cell>>, ws: Seq<Window>) -> int {
    windows_value(c, ws, ws.len() as int) + bonus_in_rows(c, c.len() as int)
}

/// How many windows the heuristic accepts: enough that the estimate fits in an
/// `i32`.
pub const MAX_WINDOWS: usize = 2_000_000;

proof fn lemma_windows_value_bound(c: Seq<Seq<Cell>>, ws: Seq<Window>, k: int)
    requires
        0 <= k,
    ensures
        -1000 * k <= windows_value(c, ws, k) <= 1000 * k,
    decreases k,
{
    if k > 0 {
        lemma_windows_value_bound(c, ws, k - 1);
    }
}

proof fn lemma_bonus_row_bound(c: Seq<Seq<Cell>>, i: int, m: int)
    requires
        board_ok(c),
        0 <= i < c.len(),
        0 <= m <= c.len(),
    ensures
        -16 * m <= bonus_in_row(c, i, m) <= 16 * m,
    decreases m,
{
    if m > 0 {
        lemma_bonus_row_bound(c, i, m - 1);
    }
}

proof fn lemma_bonus_rows_bound(c: Seq<Seq<Cell>>, k: int)
    requires
        board_ok(c),
        0 <= k <= c.len(),
    ensures
        -256 * k <= bonus_in_rows(c, k) <= 256 * k,
    decreases k,
{
    if k > 0 {
        lemma_bonus_rows_bound(c, k - 1);
        lemma_bonus_row_bound(c, k - 1, c.len() as int);
    }
}

/// The largest magnitude a heuristic estimate can have.
pub open spec fn heuristic_bound() -> int {
    1000 * MAX_WINDOWS + 4096
}

/// A heuristic estimate is at most [`heuristic_bound`] in magnitude.
pub proof fn lemma_heuristic_bound(c: Seq<Seq<Cell>>, ws: Seq<Window>)
    requires
        board_ok(c),
        ws.len() <= MAX_WINDOWS,
    ensures
        -heuristic_bound() <= heuristic_value(c, ws) <= heuristic_bound(),
{
    lemma_windows_value_bound(c, ws, ws.len() as int);
    lemma_bonus_rows_bound(c, c.len() as int);
}

/// X for O and O for X; walls and empty cells stay.
pub open spec fn swap_cell(x: Cell) -> Cell {
    match x {
        Cell::X => Cell::O,
        Cell::O => Cell::X,
        _ => x,
    }
}

/// The board with every X replaced by O and every O by X.
pub open spec fn swapped(c: Seq<Seq<Cell>>) -> Seq<Seq<Cell>> {
    c.map_values(|row: Seq<Cell>| row.map_values(|x: Cell| swap_cell(x)))
}

proof fn lemma_swapped_cell(c: Seq<Seq<Cell>>, i: int, j: int)
    requires
        board_ok(c),
        0 <= i < c.len(),
        0 <= j < c.len(),
    ensures
        swapped(c).len() == c.len(),
        swapped(c)[i][j] == swap_cell(c[i][j]),
{
}

proof fn lemma_swapped_window(c: Seq<Seq<Cell>>, w: Window)
    requires
        board_ok(c),
        forall|k: int| 0 <= k < 3 ==> (#[trigger] w[k]).0 < c.len() && w[k].1 < c.len(),
    ensures
        window_value(swapped(c), w) == -window_value(c, w),
{
    assert(w[0].0 < c.len() && w[0].1 < c.len());
    assert(w[1].0 < c.len() && w[1].1 < c.len());
    assert(w[2].0 < c.len() && w[2].1 < c.len());
    lemma_swapped_cell(c, w[0].0 as int, w[0].1 as int);
    lemma_swapped_cell(c, w[1].0 as int, w[1].1 as int);
    lemma_swapped_cell(c, w[2].0 as int, w[2].1 as int);
    assert(pieces_in(swapped(c), w, Cell::X) == pieces_in(c, w, Cell::O));
    assert(pieces_in(swapped(c), w, Cell::O) == pieces_in(c, w, Cell::X));
}

proof fn lemma_swapped_windows(c: Seq<Seq<Cell>>, ws: Seq<Window>, k: int)
    requires
        board_ok(c),
        windows_fit(ws, c.len() as int),
        k <= ws.len(),
    ensures
        windows_value(swapped(c), ws, k) == -windows_value(c, ws, k),
    decreases k,
{
    if k > 0 {
        lemma_swapped_windows(c, ws, k - 1);
        assert forall|q: int| 0 <= q < 3 implies (#[trigger] ws[k - 1][q]).0 < c.len() && ws[k - 1][q].1 < c.len() by {
        }
        lemma_swapped_window(c, ws[k - 1]);
    }
}

proof fn lemma_swapped_row(c: Seq<Seq<Cell>>, i: int, m: int)
    requires
        board_ok(c),
        0 <= i < c.len(),
        m <= c.len(),
    ensures
        bonus_in_row(swapped(c), i, m) == -bonus_in_row(c, i, m),
    decreases m,
{
    if m > 0 {
        lemma_swapped_row(c, i, m - 1);
        lemma_swapped_cell(c, i, m - 1);
    }
}

proof fn lemma_swapped_rows(c: Seq<Seq<Cell>>, k: int)
    requires
        board_ok(c),
        k <= c.len(),
    ensures
        bonus_in_rows(swapped(c), k) == -bonus_in_rows(c, k),
    decreases k,
{
    if k > 0 {
        lemma_swapped_rows(c, k - 1);
        lemma_swapped_row(c, k - 1, c.len() as int);
        assert(swapped(c).len() == c.len());
    }
}

/// Swapping X and O negates the heuristic: what favours X on one board
/// favours O as much on the other. In particular a board with no piece on it
/// scores 0.
pub proof fn law_swap_negates_heuristic(c: Seq<Seq<Cell>>, ws: Seq<Window>)
    requires
        board_ok(c),
        windows_fit(ws, c.len() as int),
    ensures
        heuristic_value(swapped(c), ws) == -heuristic_value(c, ws),
        (forall|i: int, j: int| 0 <= i < c.len() && 0 <= j < c.len() ==> #[trigger] c[i][j] != Cell::X && c[i][j]
            != Cell::O) ==> heuristic_value(c, ws) == 0,
{
    lemma_swapped_windows(c, ws, ws.len() as int);
    lemma_swapped_rows(c, c.len() as int);
    assert(swapped(c).len() == c.len());
    if forall|i: int, j: int| 0 <= i < c.len() && 0 <= j < c.len() ==> #[trigger] c[i][j] != Cell::X && c[i][j] != Cell::O {
        assert forall|i: int| 0 <= i < c.len() implies #[trigger] swapped(c)[i] == c[i] by {
            assert(swapped(c)[i] =~= c[i]);
        }
        assert(swapped(c) =~= c);
    }
}

// ---------------------------------------------------------------------------
// Move ordering
// ---------------------------------------------------------------------------

/// The sort key of a move: the remembered best move comes first (key -100),
/// then moves by Manhattan distance to the centre.
pub open spec fn move_key(m: (usize, usize), saved: Option<(u8, u8)>, center: int) -> int {
    let distance = abs(m.0 - center) + abs(m.1 - center);
    match saved {
        Some(best) => if m.0 == best.0 as usize && m.1 == best.1 as usize {
            -100
        } else {
            distance
        },
        None => distance,
    }
}

/// Moves whose key is `k`.
pub open spec fn key_is(saved: Option<(u8, u8)>, center: int, k: int) -> spec_fn((usize, usize)) -> bool {
    |m: (usize, usize)| move_key(m, saved, center) == k
}

/// The moves with keys `0..k`, key by key, each key's moves in their order.
pub open spec fn distance_buckets(ms: Seq<(usize, usize)>, saved: Option<(u8, u8)>, center: int, k: int) -> Seq<(usize, usize)>
    decreases k,
{
    if k <= 0 {
        Seq::empty()
    } else {
        distance_buckets(ms, saved, center, k - 1) + ms.filter(key_is(saved, center, k - 1))
    }
}

/// The moves stably sorted by key, where keys are -100 or between 0 and
/// `max_key`.
pub open spec fn ordered_moves(ms: Seq<(usize, usize)>, saved: Option<(u8, u8)>, center: int, max_key: int) -> Seq<(usize, usize)> {
    ms.filter(key_is(saved, center, -100)) + distance_buckets(ms, saved, center, max_key + 1)
}

/// The sort key of a move.
fn move_key_of(m: (usize, usize), saved: Option<(u8, u8)>, center: i32) -> (k: i32)
    requires
        m.0 <= 100,
        m.1 <= 100,
        0 <= center <= 100,
    ensures
        k == move_key(m, saved, center as int),
{
    if let Some((best_row, best_col)) = saved {
        if m.0 == best_row as usize && m.1 == best_col as usize {
            return -100;
        }
    }
    let dr = m.0 as i32 - center;
    let dc = m.1 as i32 - center;
    (if dr < 0 { -dr } else { dr }) + (if dc < 0 { -dc } else { dc })
}

/// Appends to `out` the moves of `ms` whose key is `k`, in their order.
fn append_with_key(ms: &Vec<(usize, usize)>, saved: Option<(u8, u8)>, center: i32, k: i32, out: &mut Vec<(usize, usize)>)
    requires
        forall|t: int| 0 <= t < ms@.len() ==> (#[trigger] ms@[t]).0 <= 100 && ms@[t].1 <= 100,
        0 <= center <= 100,
    ensures
        final(out)@ == old(out)@ + ms@.filter(key_is(saved, center as int, k as int)),
{
    let ghost pred = key_is(saved, center as int, k as int);
    let ghost start = out@;
    for t in 0..ms.len()
        invariant
            forall|q: int| 0 <= q < ms@.len() ==> (#[trigger] ms@[q]).0 <= 100 && ms@[q].1 <= 100,
            0 <= center <= 100,
            pred == key_is(saved, center as int, k as int),
            out@ == start + ms@.take(t as int).filter(pred),
    {
        proof {
            assert(ms@.take(t + 1) =~= ms@.take(t as int).push(ms@[t as int]));
            ms@.take(t as int).lemma_filter_push(ms@[t as int], pred);
        }
        if move_key_of(ms[t], saved, center) == k {
            out.push(ms[t]);
        }
    }
    assert(ms@.take(ms@.len() as int) =~= ms@);
}

/// The moves stably sorted by key: the remembered best move first, then by
/// distance to the centre.
pub fn order_moves(ms: &Vec<(usize, usize)>, saved: Option<(u8, u8)>, center: i32, max_key: i32) -> (out: Vec<(usize, usize)>)
    requires
        forall|t: int| 0 <= t < ms@.len() ==> (#[trigger] ms@[t]).0 <= 100 && ms@[t].1 <= 100,
        0 <= center <= 100,
        0 <= max_key <= 1000,
    ensures
        out@ == ordered_moves(ms@, saved, center as int, max_key as int),
{
    let mut out: Vec<(usize, usize)> = Vec::new();
    append_with_key(ms, saved, center, -100, &mut out);
    let ghost first = out@;
    let mut k: i32 = 0;
    while k <= max_key
        invariant
            forall|t: int| 0 <= t < ms@.len() ==> (#[trigger] ms@[t]).0 <= 100 && ms@[t].1 <= 100,
            0 <= center <= 100,
            0 <= k <= max_key + 1,
            max_key <= 1000,
            first == ms@.filter(key_is(saved, center as int, -100)),
            out@ == first + distance_buckets(ms@, saved, center as int, k as int),
        decreases max_key + 1 - k,
    {
        append_with_key(ms, saved, center, k, &mut out);
        proof {
            assert(out@ =~= first + distance_buckets(ms@, saved, center as int, k + 1));
        }
        k = k + 1;
    }
    out
}


/// An element survives a filter exactly when it is there and satisfies the
/// predicate.
pub proof fn lemma_filter_member(s: Seq<(usize, usize)>, p: spec_fn((usize, usize)) -> bool, x: (usize, usize))
    ensures
        s.filter(p).contains(x) <==> (s.contains(x) && p(x)),
{
    if s.filter(p).contains(x) {
        s.lemma_filter_contains_rev(p, x);
        let i = choose|i: int| 0 <= i < s.filter(p).len() && s.filter(p)[i] == x;
        s.lemma_filter_pred(p, i);
    }
    if s.contains(x) && p(x) {
        let i = choose|i: int| 0 <= i < s.len() && s[i] == x;
        s.lemma_filter_contains(p, i);
    }
}

/// An element of a concatenation comes from one of its parts.
pub proof fn lemma_concat_member(a: Seq<(usize, usize)>, b: Seq<(usize, usize)>, x: (usize, usize))
    ensures
        (a + b).contains(x) <==> (a.contains(x) || b.contains(x)),
{
    if (a + b).contains(x) {
        let i = choose|i: int| 0 <= i < (a + b).len() && (a + b)[i] == x;
        if i < a.len() {
            assert(a[i] == x);
        } else {
            assert(b[i - a.len()] == x);
        }
    }
    if a.contains(x) {
        let i = choose|i: int| 0 <= i < a.len() && a[i] == x;
        assert((a + b)[i] == x);
    }
    if b.contains(x) {
        let i = choose|i: int| 0 <= i < b.len() && b[i] == x;
        assert((a + b)[a.len() + i] == x);
    }
}

proof fn lemma_bucket_members(ms: Seq<(usize, usize)>, saved: Option<(u8, u8)>, center: int, k: int)
    requires
        k >= 0,
    ensures
        forall|x: (usize, usize)|
            #[trigger] distance_buckets(ms, saved, center, k).contains(x) <==> (ms.contains(x) && 0
                <= move_key(x, saved, center) < k),
    decreases k,
{
    if k > 0 {
        lemma_bucket_members(ms, saved, center, k - 1);
        assert forall|x: (usize, usize)|
            #[trigger] distance_buckets(ms, saved, center, k).contains(x) <==> (ms.contains(x) && 0
                <= move_key(x, saved, center) < k) by {
            lemma_filter_member(ms, key_is(saved, center, k - 1), x);
            lemma_concat_member(distance_buckets(ms, saved, center, k - 1), ms.filter(key_is(saved, center, k - 1)), x);
        }
    }
}

/// The ordered moves are moves of the list, and every move whose key is -100
/// or at most `max_key` is among them.
pub proof fn lemma_ordered_members(ms: Seq<(usize, usize)>, saved: Option<(u8, u8)>, center: int, max_key: int)
    requires
        max_key >= 0,
    ensures
        forall|x: (usize, usize)|
            #[trigger] ordered_moves(ms, saved, center, max_key).contains(x) <==> (ms.contains(x) && (
            move_key(x, saved, center) == -100 || 0 <= move_key(x, saved, center) <= max_key)),
{
    lemma_bucket_members(ms, saved, center, max_key + 1);
    assert forall|x: (usize, usize)|
        #[trigger] ordered_moves(ms, saved, center, max_key).contains(x) <==> (ms.contains(x) && (
        move_key(x, saved, center) == -100 || 0 <= move_key(x, saved, center) <= max_key)) by {
        lemma_filter_member(ms, key_is(saved, center, -100), x);
        lemma_concat_member(ms.filter(key_is(saved, center, -100)), distance_buckets(ms, saved, center, max_key + 1), x);
    }
}

/// Keys never decrease along `s`.
pub open spec fn keys_sorted(s: Seq<(usize, usize)>, saved: Option<(u8, u8)>, center: int) -> bool {
    forall|i: int, j: int| 0 <= i < j < s.len() ==> move_key(#[trigger] s[i], saved, center) <= move_key(#[trigger] s[j], saved, center)
}

proof fn lemma_buckets_sorted(ms: Seq<(usize, usize)>, saved: Option<(u8, u8)>, center: int, k: int)
    requires
        k >= 0,
    ensures
        keys_sorted(distance_buckets(ms, saved, center, k), saved, center),
        forall|t: int| 0 <= t < distance_buckets(ms, saved, center, k).len() ==> 0 <= move_key(
            #[trigger] distance_buckets(ms, saved, center, k)[t],
            saved,
            center,
        ) < k,
    decreases k,
{
    if k > 0 {
        lemma_buckets_sorted(ms, saved, center, k - 1);
        let a = distance_buckets(ms, saved, center, k - 1);
        let b = ms.filter(key_is(saved, center, k - 1));
        let ab = distance_buckets(ms, saved, center, k);
        assert forall|t: int| 0 <= t < b.len() implies move_key(#[trigger] b[t], saved, center) == k - 1 by {
            ms.lemma_filter_pred(key_is(saved, center, k - 1), t);
        }
        assert forall|t: int| 0 <= t < ab.len() implies 0 <= move_key(#[trigger] ab[t], saved, center) < k by {
            if t < a.len() {
                assert(ab[t] == a[t]);
            } else {
                assert(ab[t] == b[t - a.len()]);
            }
        }
        assert forall|i: int, j: int| 0 <= i < j < ab.len() implies move_key(#[trigger] ab[i], saved, center) <= move_key(#[trigger] ab[j], saved, center) by {
            if j < a.len() {
                assert(ab[i] == a[i] && ab[j] == a[j]);
            } else if i >= a.len() {
                assert(ab[i] == b[i - a.len()] && ab[j] == b[j - a.len()]);
            } else {
                assert(ab[i] == a[i] && ab[j] == b[j - a.len()]);
            }
        }
    }
}

/// The move order is a stable sort by key: keys never decrease along it, it
/// holds exactly the moves whose key is -100 or between 0 and `max_key`, and
/// moves with equal keys keep their order (each key's moves form a filter of
/// the list).
pub proof fn law_ordered_moves_sorted(ms: Seq<(usize, usize)>, saved: Option<(u8, u8)>, center: int, max_key: int)
    requires
        max_key >= 0,
    ensures
        keys_sorted(ordered_moves(ms, saved, center, max_key), saved, center),
        forall|x: (usize, usize)|
            #[trigger] ordered_moves(ms, saved, center, max_key).contains(x) <==> (ms.contains(x) && (
            move_key(x, saved, center) == -100 || 0 <= move_key(x, saved, center) <= max_key)),
{
    lemma_ordered_members(ms, saved, center, max_key);
    lemma_buckets_sorted(ms, saved, center, max_key + 1);
    let a = ms.filter(key_is(saved, center, -100));
    let b = distance_buckets(ms, saved, center, max_key + 1);
    let ab = ordered_moves(ms, saved, center, max_key);
    assert forall|t: int| 0 <= t < a.len() implies move_key(#[trigger] a[t], saved, center) == -100 by {
        ms.lemma_filter_pred(key_is(saved, center, -100), t);
    }
    assert forall|i: int, j: int| 0 <= i < j < ab.len() implies move_key(#[trigger] ab[i], saved, center) <= move_key(#[trigger] ab[j], saved, center) by {
        if j < a.len() {
            assert(ab[i] == a[i] && ab[j] == a[j]);
        } else if i >= a.len() {
            assert(ab[i] == b[i - a.len()] && ab[j] == b[j - a.len()]);
        } else {
            assert(ab[i] == a[i] && ab[j] == b[j - a.len()]);
        }
    }
}

/// Appending a move adds it to the bucket of its key only.
proof fn lemma_buckets_push(ms: Seq<(usize, usize)>, x: (usize, usize), saved: Option<(u8, u8)>, center: int, k: int)
    requires
        k >= 0,
    ensures
        distance_buckets(ms.push(x), saved, center, k).len() == distance_buckets(ms, saved, center, k).len() + if 0
            <= move_key(x, saved, center) < k {
            1int
        } else {
            0int
        },
    decreases k,
{
    if k > 0 {
        lemma_buckets_push(ms, x, saved, center, k - 1);
        ms.lemma_filter_push(x, key_is(saved, center, k - 1));
    }
}

/// Ordering the moves keeps no more moves than there are.
pub proof fn lemma_ordered_len(ms: Seq<(usize, usize)>, saved: Option<(u8, u8)>, center: int, max_key: int)
    requires
        max_key >= 0,
    ensures
        ordered_moves(ms, saved, center, max_key).len() <= ms.len(),
    decreases ms.len(),
{
    if ms.len() == 0 {
        lemma_buckets_empty(ms, saved, center, max_key + 1);
        assert(ms.filter(key_is(saved, center, -100)).len() == 0);
    } else {
        let s = ms.drop_last();
        let x = ms.last();
        assert(ms == s.push(x));
        lemma_ordered_len(s, saved, center, max_key);
        lemma_buckets_push(s, x, saved, center, max_key + 1);
        s.lemma_filter_push(x, key_is(saved, center, -100));
    }
}

/// The buckets of no moves are empty.
proof fn lemma_buckets_empty(ms: Seq<(usize, usize)>, saved: Option<(u8, u8)>, center: int, k: int)
    requires
        ms.len() == 0,
        k >= 0,
    ensures
        distance_buckets(ms, saved, center, k).len() == 0,
    decreases k,
{
    if k > 0 {
        lemma_buckets_empty(ms, saved, center, k - 1);
        assert(ms.filter(key_is(saved, center, k - 1)).len() == 0);
    }
}

/// On a board of side `n`, a move's key is -100 or at most `2n`.
pub proof fn lemma_key_range(m: (usize, usize), saved: Option<(u8, u8)>, n: int)
    requires
        m.0 < n,
        m.1 < n,
    ensures
        move_key(m, saved, n / 2) == -100 || 0 <= move_key(m, saved, n / 2) <= 2 * n,
{
}

// ---------------------------------------------------------------------------
// The agent
// ---------------------------------------------------------------------------

/// Alpha-beta search with iterative deepening and a transposition table.
pub struct SolutionAgent {}

/// Appends the window `w` if none of its cells holds a wall.
fn push_if_wall_free(board: &Board, w: Window, out: &mut Vec<Window>)
    requires
        board.wf(),
        w[0].0 < board@.len() && w[0].1 < board@.len(),
        w[1].0 < board@.len() && w[1].1 < board@.len(),
        w[2].0 < board@.len() && w[2].1 < board@.len(),
    ensures
        final(out)@ == if wall_free(
            board@,
            (w[0].0 as int, w[0].1 as int),
            (w[1].0 as int, w[1].1 as int),
            (w[2].0 as int, w[2].1 as int),
        ) {
            old(out)@.push(w)
        } else {
            old(out)@
        },
{
    if board.cell(w[0].0, w[0].1) != Cell::Wall && board.cell(w[1].0, w[1].1) != Cell::Wall
        && board.cell(w[2].0, w[2].1) != Cell::Wall {
        out.push(w);
    }
}

/// The row step of direction `dir`: rightwards, downwards, down-right,
/// down-left.
pub open spec fn dir_di(dir: u8) -> int {
    if dir == 0 {
        0
    } else {
        1
    }
}

/// The column step of direction `dir`.
pub open spec fn dir_dj(dir: u8) -> int {
    if dir == 0 {
        1
    } else if dir == 1 {
        0
    } else if dir == 2 {
        1
    } else {
        -1
    }
}

/// Concatenation of windows is associative.
proof fn lemma_concat_assoc(a: Seq<Window>, b: Seq<Window>, c: Seq<Window>)
    ensures
        (a + b) + c == a + (b + c),
{
    assert((a + b) + c =~= a + (b + c));
}

/// Appends the window at `(i, j)` in direction `dir` if it is open.
#[verifier::rlimit(30)]
fn push_open_window(board: &Board, i: usize, j: usize, dir: u8, out: &mut Vec<Window>)
    requires
        board.wf(),
        i < board@.len(),
        j < board@.len(),
        dir < 4,
    ensures
        final(out)@ == old(out)@ + window_if_open(board@, i as int, j as int, dir_di(dir), dir_dj(dir)),
{
    let size = board.size();
    if dir == 0 {
        // horizontal: go right
        if j + 2 < size {
            push_if_wall_free(board, [(i, j), (i, j + 1), (i, j + 2)], out);
        }
    } else if dir == 1 {
        // vertical: go down
        if i + 2 < size {
            push_if_wall_free(board, [(i, j), (i + 1, j), (i + 2, j)], out);
        }
    } else if dir == 2 {
        // diagonal: go down-right
        if i + 2 < size && j + 2 < size {
            push_if_wall_free(board, [(i, j), (i + 1, j + 1), (i + 2, j + 2)], out);
        }
    } else {
        // diagonal: go down-left
        if i + 2 < size && j >= 2 {
            push_if_wall_free(board, [(i, j), (i + 1, j - 1), (i + 2, j - 2)], out);
        }
    }
    assert(out@ =~= old(out)@ + window_if_open(board@, i as int, j as int, dir_di(dir), dir_dj(dir)));
}

impl SolutionAgent {
    /// All windows of three cells in a row, column or diagonal that hold no
    /// wall, by starting cell in row-major order and, per cell, rightwards,
    /// downwards, down-right and down-left.
    pub fn find_all_windows(board: &Board) -> (windows: Vec<Window>)
        requires
            board.wf(),
        ensures
            windows@ == windows_of(board@),
    {
        let size = board.size();
        let mut windows: Vec<Window> = Vec::new();
        for i in 0..size
            invariant
                board.wf(),
                size == board@.len(),
                windows@ == windows_in_rows(board@, i as int),
        {
            let ghost before = windows@;
            for j in 0..size
                invariant
                    board.wf(),
                    size == board@.len(),
                    i < size,
                    before == windows_in_rows(board@, i as int),
                    windows@ == before + windows_in_row(board@, i as int, j as int),
            {
                let ghost c = board@;
                let ghost at_start = windows@;
                let ghost w0 = window_if_open(c, i as int, j as int, 0, 1);
                let ghost w1 = window_if_open(c, i as int, j as int, 1, 0);
                let ghost w2 = window_if_open(c, i as int, j as int, 1, 1);
                let ghost w3 = window_if_open(c, i as int, j as int, 1, -1);
                push_open_window(board, i, j, 0, &mut windows);
                assert(windows@ == at_start + w0);
                push_open_window(board, i, j, 1, &mut windows);
                assert(windows@ == (at_start + w0) + w1);
                push_open_window(board, i, j, 2, &mut windows);
                assert(windows@ == ((at_start + w0) + w1) + w2);
                push_open_window(board, i, j, 3, &mut windows);
                assert(windows@ == (((at_start + w0) + w1) + w2) + w3);
                proof {
                    lemma_concat_assoc(at_start, w0, w1);
                    lemma_concat_assoc(at_start, w0 + w1, w2);
                    lemma_concat_assoc(at_start, (w0 + w1) + w2, w3);
                    assert(windows_at(c, i as int, j as int) == ((w0 + w1) + w2) + w3);
                    lemma_concat_assoc(before, windows_in_row(c, i as int, j as int), windows_at(c, i as int, j as int));
                }
                assert(windows@ == before + windows_in_row(board@, i as int, j + 1));
            }
        }
        windows
    }

    /// The heuristic estimate of the position: each window held by one player
    /// only scores 5, 50 or 1000 for one, two or three pieces (for X, or
    /// against for O), and each piece adds the side length minus its distance
    /// to the centre (for X, or against for O).
    pub fn heuristic(board: &Board, windows: &Vec<Window>) -> (score: i32)
        requires
            board.wf(),
            windows_fit(windows@, board@.len() as int),
            windows@.len() <= MAX_WINDOWS,
        ensures
            score == heuristic_value(board@, windows@),
    {
        let size = board.size();
        let mut score: i32 = 0;
        for t in 0..windows.len()
            invariant
                board.wf(),
                size == board@.len(),
                windows_fit(windows@, board@.len() as int),
                windows@.len() <= MAX_WINDOWS,
                score == windows_value(board@, windows@, t as int),
        {
            proof {
                lemma_windows_value_bound(board@, windows@, t as int);
            }
            let w = windows[t];
            assert(w[0].0 < size && w[0].1 < size && w[1].0 < size && w[1].1 < size && w[2].0 < size && w[2].1 < size) by {
                assert(windows@[t as int][0] == w[0]);
                assert(windows@[t as int][1] == w[1]);
                assert(windows@[t as int][2] == w[2]);
            }
            let mut number_of_x: i32 = 0;
            let mut number_of_o: i32 = 0;
            for k in 0..3usize
                invariant
                    board.wf(),
                    size == board@.len(),
                    w[0].0 < size && w[0].1 < size && w[1].0 < size && w[1].1 < size && w[2].0 < size && w[2].1 < size,
                    number_of_x == pieces_in(board@.subrange(0, board@.len() as int), w, Cell::X) - (
                    if k < 3 { count_if(board@[w[2].0 as int][w[2].1 as int] == Cell::X) } else { 0 })
                    - (if k < 2 { count_if(board@[w[1].0 as int][w[1].1 as int] == Cell::X) } else { 0 })
                    - (if k < 1 { count_if(board@[w[0].0 as int][w[0].1 as int] == Cell::X) } else { 0 }),
                    number_of_o == pieces_in(board@.subrange(0, board@.len() as int), w, Cell::O) - (
                    if k < 3 { count_if(board@[w[2].0 as int][w[2].1 as int] == Cell::O) } else { 0 })
                    - (if k < 2 { count_if(board@[w[1].0 as int][w[1].1 as int] == Cell::O) } else { 0 })
                    - (if k < 1 { count_if(board@[w[0].0 as int][w[0].1 as int] == Cell::O) } else { 0 }),
            {
                let (row, col) = w[k];
                match board.cell(row, col) {
                    Cell::X => number_of_x = number_of_x + 1,
                    Cell::O => number_of_o = number_of_o + 1,
                    _ => {},
                }
            }
            assert(board@.subrange(0, board@.len() as int) =~= board@);
            assert(w == windows@[t as int]);
            if number_of_x > 0 && number_of_o > 0 {
                // both players are in this window: neither can win here
            } else if number_of_x > 0 {
                score = score + match number_of_x {
                    3 => 1000i32,
                    2 => 50,
                    1 => 5,
                    _ => 0,
                };
            } else if number_of_o > 0 {
                score = score - match number_of_o {
                    3 => 1000i32,
                    2 => 50,
                    1 => 5,
                    _ => 0,
                };
            }
        }
        proof {
            lemma_windows_value_bound(board@, windows@, windows@.len() as int);
        }
        let ghost windows_total = score as int;
        // small bonus for controlling cells near the centre of the board
        let center = size as i32 / 2;
        for i in 0..size
            invariant
                board.wf(),
                size == board@.len(),
                center == size as int / 2,
                -1000 * MAX_WINDOWS <= windows_total <= 1000 * MAX_WINDOWS,
                score == windows_total + bonus_in_rows(board@, i as int),
        {
            proof {
                crate::alphabeta::lemma_bonus_rows_bound(board@, i as int);
            }
            let ghost row_start = score as int;
            for j in 0..size
                invariant
                    board.wf(),
                    size == board@.len(),
                    i < size,
                    center == size as int / 2,
                    -1000 * MAX_WINDOWS <= windows_total <= 1000 * MAX_WINDOWS,
                    -256 * i <= bonus_in_rows(board@, i as int) <= 256 * i,
                    row_start == windows_total + bonus_in_rows(board@, i as int),
                    score == row_start + bonus_in_row(board@, i as int, j as int),
            {
                proof {
                    lemma_bonus_row_bound(board@, i as int, j as int);
                }
                let dr = i as i32 - center;
                let dc = j as i32 - center;
                let distance_from_center = (if dr < 0 { -dr } else { dr }) + (if dc < 0 { -dc } else { dc });
                let center_bonus = size as i32 - distance_from_center;
                match board.cell(i, j) {
                    Cell::X => score = score + center_bonus,
                    Cell::O => score = score - center_bonus,
                    _ => {},
                }
            }
        }
        score
    }
}

} // verus!
