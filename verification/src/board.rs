//! A square tic-tac-toe board whose cells may hold walls, with the moves a
//! player can make and the score of a position.
//!
//! The score of a position is the number of lines of three (in a row, a column
//! or a diagonal) that X owns minus the number that O owns; the game is over
//! when no empty cell is left.

use vstd::prelude::*;

verus! {

broadcast use vstd::seq_lib::group_seq_properties;

/// The largest side length a board may have.
pub const MAX_SIZE: usize = 16;

/// The content of a cell.
#[derive(Clone, Copy, Debug, PartialEq, Eq, Structural)]
pub enum Cell {
    X,
    O,
    Empty,
    Wall,
}

/// The player to move.
#[derive(Clone, Copy, Debug, PartialEq, Eq, Structural)]
pub enum Player {
    X,
    O,
}

/// The piece a player places.
pub open spec fn piece_of(p: Player) -> Cell {
    match p {
        Player::X => Cell::X,
        Player::O => Cell::O,
    }
}

/// The other player.
pub open spec fn other(p: Player) -> Player {
    match p {
        Player::X => Player::O,
        Player::O => Player::X,
    }
}

impl Player {
    /// The other player.
    pub fn flip(self) -> (p: Player)
        ensures
            p == other(self),
    {
        match self {
            Player::X => Player::O,
            Player::O => Player::X,
        }
    }

    /// The piece this player places.
    pub fn piece(self) -> (c: Cell)
        ensures
            c == piece_of(self),
    {
        match self {
            Player::X => Cell::X,
            Player::O => Cell::O,
        }
    }
}

/// A board is square, of side at most [`MAX_SIZE`].
pub open spec fn board_ok(c: Seq<Seq<Cell>>) -> bool {
    &&& c.len() <= MAX_SIZE
    &&& forall|i: int| 0 <= i < c.len() ==> (#[trigger] c[i]).len() == c.len()
}

/// The cells of a square board with `(row, col)` set to `v`.
pub open spec fn with_cell(c: Seq<Seq<Cell>>, row: int, col: int, v: Cell) -> Seq<Seq<Cell>> {
    c.update(row, c[row].update(col, v))
}

// ---------------------------------------------------------------------------
// Moves
// ---------------------------------------------------------------------------

/// The empty cells of row `i` among its first `m` columns, left to right.
pub open spec fn empties_in_row(c: Seq<Seq<Cell>>, i: int, m: int) -> Seq<(usize, usize)>
    decreases m,
{
    if m <= 0 {
        Seq::empty()
    } else {
        let before = empties_in_row(c, i, m - 1);
        if c[i][m - 1] == Cell::Empty {
            before.push((i as usize, (m - 1) as usize))
        } else {
            before
        }
    }
}

/// The empty cells of the first `k` rows, row by row.
pub open spec fn empties_in_rows(c: Seq<Seq<Cell>>, k: int) -> Seq<(usize, usize)>
    decreases k,
{
    if k <= 0 {
        Seq::empty()
    } else {
        empties_in_rows(c, k - 1) + empties_in_row(c, k - 1, c.len() as int)
    }
}

/// The moves available on a board: its empty cells in row-major order.
pub open spec fn moves_of(c: Seq<Seq<Cell>>) -> Seq<(usize, usize)> {
    empties_in_rows(c, c.len() as int)
}

/// The game is over when no empty cell is left.
pub open spec fn game_over_of(c: Seq<Seq<Cell>>) -> bool {
    moves_of(c).len() == 0
}

/// `m` names a cell of the board that is empty.
pub open spec fn is_empty_cell(c: Seq<Seq<Cell>>, m: (usize, usize)) -> bool {
    &&& m.0 < c.len()
    &&& m.1 < c.len()
    &&& c[m.0 as int][m.1 as int] == Cell::Empty
}

proof fn lemma_empties_in_row(c: Seq<Seq<Cell>>, i: int, m: int)
    requires
        board_ok(c),
        0 <= i < c.len(),
        0 <= m <= c.len(),
    ensures
        forall|t: int| 0 <= t < empties_in_row(c, i, m).len() ==> {
            let e = #[trigger] empties_in_row(c, i, m)[t];
            e.0 == i && e.1 < m && c[i][e.1 as int] == Cell::Empty
        },
        forall|j: int| 0 <= j < m && c[i][j] == Cell::Empty ==> #[trigger] empties_in_row(c, i, m).contains(
            (i as usize, j as usize),
        ),
        empties_in_row(c, i, m).len() <= m,
    decreases m,
{
    if m > 0 {
        lemma_empties_in_row(c, i, m - 1);
        let before = empties_in_row(c, i, m - 1);
        assert forall|j: int| 0 <= j < m && c[i][j] == Cell::Empty implies #[trigger] empties_in_row(c, i, m).contains(
            (i as usize, j as usize),
        ) by {
            if j < m - 1 {
                assert(before.contains((i as usize, j as usize)));
                let t = choose|t: int| 0 <= t < before.len() && before[t] == (i as usize, j as usize);
                assert(empties_in_row(c, i, m)[t] == (i as usize, j as usize));
            } else {
                assert(empties_in_row(c, i, m).last() == (i as usize, j as usize));
            }
        }
    }
}

proof fn lemma_empties_in_rows(c: Seq<Seq<Cell>>, k: int)
    requires
        board_ok(c),
        0 <= k <= c.len(),
    ensures
        forall|t: int| 0 <= t < empties_in_rows(c, k).len() ==> is_empty_cell(c, #[trigger] empties_in_rows(c, k)[t]) && empties_in_rows(c, k)[t].0 < k,
        forall|i: int, j: int|
            0 <= i < k && 0 <= j < c.len() && c[i][j] == Cell::Empty ==> #[trigger] empties_in_rows(c, k).contains(
                (i as usize, j as usize),
            ),
    decreases k,
{
    if k > 0 {
        lemma_empties_in_rows(c, k - 1);
        lemma_empties_in_row(c, k - 1, c.len() as int);
        let a = empties_in_rows(c, k - 1);
        let b = empties_in_row(c, k - 1, c.len() as int);
        assert forall|t: int| 0 <= t < empties_in_rows(c, k).len() implies is_empty_cell(c, #[trigger] empties_in_rows(c, k)[t]) && empties_in_rows(c, k)[t].0 < k by {
            if t < a.len() {
                assert(empties_in_rows(c, k)[t] == a[t]);
            } else {
                assert(empties_in_rows(c, k)[t] == b[t - a.len()]);
            }
        }
        assert forall|i: int, j: int|
            0 <= i < k && 0 <= j < c.len() && c[i][j] == Cell::Empty implies #[trigger] empties_in_rows(c, k).contains(
                (i as usize, j as usize),
            ) by {
            if i < k - 1 {
                assert(a.contains((i as usize, j as usize)));
                let t = choose|t: int| 0 <= t < a.len() && a[t] == (i as usize, j as usize);
                assert(empties_in_rows(c, k)[t] == a[t]);
            } else {
                assert(b.contains((i as usize, j as usize)));
                let t = choose|t: int| 0 <= t < b.len() && b[t] == (i as usize, j as usize);
                assert(empties_in_rows(c, k)[a.len() + t] == b[t]);
            }
        }
    }
}

/// The moves are exactly the empty cells of the board.
pub proof fn lemma_moves_are_empty_cells(c: Seq<Seq<Cell>>)
    requires
        board_ok(c),
    ensures
        forall|t: int| 0 <= t < moves_of(c).len() ==> is_empty_cell(c, #[trigger] moves_of(c)[t]),
        forall|m: (usize, usize)| is_empty_cell(c, m) ==> #[trigger] moves_of(c).contains(m),
{
    lemma_empties_in_rows(c, c.len() as int);
    assert forall|m: (usize, usize)| is_empty_cell(c, m) implies #[trigger] moves_of(c).contains(m) by {
        assert(empties_in_rows(c, c.len() as int).contains((m.0 as int as usize, m.1 as int as usize)));
    }
}

proof fn lemma_row_after_fill(c: Seq<Seq<Cell>>, a: int, b: int, v: Cell, i: int, m: int)
    requires
        board_ok(c),
        0 <= a < c.len(),
        0 <= b < c.len(),
        c[a][b] == Cell::Empty,
        v != Cell::Empty,
        0 <= i < c.len(),
        0 <= m <= c.len(),
    ensures
        empties_in_row(with_cell(c, a, b, v), i, m).len() == empties_in_row(c, i, m).len() - if i == a && b < m {
            1int
        } else {
            0int
        },
    decreases m,
{
    if m > 0 {
        lemma_row_after_fill(c, a, b, v, i, m - 1);
    }
}

proof fn lemma_rows_after_fill(c: Seq<Seq<Cell>>, a: int, b: int, v: Cell, k: int)
    requires
        board_ok(c),
        0 <= a < c.len(),
        0 <= b < c.len(),
        c[a][b] == Cell::Empty,
        v != Cell::Empty,
        0 <= k <= c.len(),
    ensures
        empties_in_rows(with_cell(c, a, b, v), k).len() == empties_in_rows(c, k).len() - if a < k {
            1int
        } else {
            0int
        },
    decreases k,
{
    if k > 0 {
        lemma_rows_after_fill(c, a, b, v, k - 1);
        lemma_row_after_fill(c, a, b, v, k - 1, c.len() as int);
    }
}

proof fn lemma_empties_in_rows_count(c: Seq<Seq<Cell>>, k: int)
    requires
        board_ok(c),
        0 <= k <= c.len(),
    ensures
        empties_in_rows(c, k).len() <= k * c.len(),
    decreases k,
{
    if k > 0 {
        lemma_empties_in_rows_count(c, k - 1);
        lemma_empties_in_row(c, k - 1, c.len() as int);
        let n = c.len() as int;
        assert((k - 1) * n + n == k * n) by (nonlinear_arith);
    }
}

/// A board of side `n` has at most `n * n` moves.
pub proof fn lemma_moves_count(c: Seq<Seq<Cell>>)
    requires
        board_ok(c),
    ensures
        moves_of(c).len() <= c.len() * c.len(),
{
    lemma_empties_in_rows_count(c, c.len() as int);
}

/// Filling an empty cell takes one move away.
pub proof fn lemma_fill_removes_one_move(c: Seq<Seq<Cell>>, m: (usize, usize), v: Cell)
    requires
        board_ok(c),
        is_empty_cell(c, m),
        v != Cell::Empty,
    ensures
        moves_of(with_cell(c, m.0 as int, m.1 as int, v)).len() == moves_of(c).len() - 1,
        board_ok(with_cell(c, m.0 as int, m.1 as int, v)),
{
    lemma_rows_after_fill(c, m.0 as int, m.1 as int, v, c.len() as int);
}

// ---------------------------------------------------------------------------
// Score
// ---------------------------------------------------------------------------

/// The line of three starting at `(i, j)` and stepping by `(di, dj)` lies on
/// the board and holds `p` in each cell.
pub open spec fn owns_line(c: Seq<Seq<Cell>>, i: int, j: int, di: int, dj: int, p: Cell) -> bool {
    &&& 0 <= i + 2 * di < c.len()
    &&& 0 <= j + 2 * dj < c.len()
    &&& c[i][j] == p
    &&& c[i + di][j + dj] == p
    &&& c[i + 2 * di][j + 2 * dj] == p
}

pub open spec fn count_if(b: bool) -> int {
    if b {
        1
    } else {
        0
    }
}

/// The lines of three starting at `(i, j)` that `p` owns: rightwards,
/// downwards, down-right and down-left.
pub open spec fn lines_at(c: Seq<Seq<Cell>>, i: int, j: int, p: Cell) -> int {
    count_if(owns_line(c, i, j, 0, 1, p)) + count_if(owns_line(c, i, j, 1, 0, p)) + count_if(
        owns_line(c, i, j, 1, 1, p),
    ) + count_if(owns_line(c, i, j, 1, -1, p))
}

/// The lines owned by `p` that start in row `i` among its first `m` columns.
pub open spec fn lines_in_row(c: Seq<Seq<Cell>>, i: int, m: int, p: Cell) -> int
    decreases m,
{
    if m <= 0 {
        0
    } else {
        lines_in_row(c, i, m - 1, p) + lines_at(c, i, m - 1, p)
    }
}

/// The lines owned by `p` that start in the first `k` rows.
pub open spec fn lines_in_rows(c: Seq<Seq<Cell>>, k: int, p: Cell) -> int
    decreases k,
{
    if k <= 0 {
        0
    } else {
        lines_in_rows(c, k - 1, p) + lines_in_row(c, k - 1, c.len() as int, p)
    }
}

/// The number of lines of three that `p` owns.
pub open spec fn line_count(c: Seq<Seq<Cell>>, p: Cell) -> int {
    lines_in_rows(c, c.len() as int, p)
}

/// The score of a position: X's lines minus O's lines.
pub open spec fn score_of(c: Seq<Seq<Cell>>) -> int {
    line_count(c, Cell::X) - line_count(c, Cell::O)
}

proof fn lemma_lines_in_row_bound(c: Seq<Seq<Cell>>, i: int, m: int, p: Cell)
    requires
        m >= 0,
    ensures
        0 <= lines_in_row(c, i, m, p) <= 4 * m,
    decreases m,
{
    if m > 0 {
        lemma_lines_in_row_bound(c, i, m - 1, p);
    }
}

proof fn lemma_lines_in_rows_bound(c: Seq<Seq<Cell>>, k: int, p: Cell)
    requires
        board_ok(c),
        0 <= k <= c.len(),
    ensures
        0 <= lines_in_rows(c, k, p) <= 64 * k,
    decreases k,
{
    if k > 0 {
        lemma_lines_in_rows_bound(c, k - 1, p);
        lemma_lines_in_row_bound(c, k - 1, c.len() as int, p);
    }
}

/// A score lies between -1024 and 1024.
pub proof fn lemma_score_bound(c: Seq<Seq<Cell>>)
    requires
        board_ok(c),
    ensures
        -1024 <= score_of(c) <= 1024,
        0 <= line_count(c, Cell::X) <= 1024,
        0 <= line_count(c, Cell::O) <= 1024,
{
    lemma_lines_in_rows_bound(c, c.len() as int, Cell::X);
    lemma_lines_in_rows_bound(c, c.len() as int, Cell::O);
}

/// `(x, y)` is one of the three cells from `(a, b)` stepping by `(di, dj)`.
pub open spec fn on_line(x: int, y: int, a: int, b: int, di: int, dj: int) -> bool {
    (x == a && y == b) || (x == a + di && y == b + dj) || (x == a + 2 * di && y == b + 2 * dj)
}

/// One of the four directions a line of three runs in: rightwards,
/// downwards, down-right, down-left.
pub open spec fn line_direction(di: int, dj: int) -> bool {
    (di == 0 && dj == 1) || (di == 1 && dj == 0) || (di == 1 && dj == 1) || (di == 1 && dj == -1)
}

/// The board holds `p` on the three cells of one line, wherever it lies, and
/// nothing anywhere else.
pub open spec fn lone_line(c: Seq<Seq<Cell>>, a: int, b: int, di: int, dj: int, p: Cell) -> bool {
    &&& board_ok(c)
    &&& line_direction(di, dj)
    &&& 0 <= a < c.len() && 0 <= b < c.len()
    &&& 0 <= a + 2 * di < c.len() && 0 <= b + 2 * dj < c.len()
    &&& forall|x: int, y: int|
        0 <= x < c.len() && 0 <= y < c.len() ==> #[trigger] c[x][y] == if on_line(x, y, a, b, di, dj) {
            p
        } else {
            Cell::Empty
        }
}

proof fn lemma_lone_owns(c: Seq<Seq<Cell>>, a: int, b: int, di: int, dj: int, p: Cell, q: Cell, i: int, j: int, ei: int, ej: int)
    requires
        lone_line(c, a, b, di, dj, p),
        p != Cell::Empty,
        q != Cell::Empty,
        line_direction(ei, ej),
        0 <= i < c.len(),
        0 <= j < c.len(),
    ensures
        owns_line(c, i, j, ei, ej, q) == (q == p && i == a && j == b && ei == di && ej == dj),
{
    if 0 <= i + 2 * ei < c.len() && 0 <= j + 2 * ej < c.len() {
        assert(c[i][j] == if on_line(i, j, a, b, di, dj) { p } else { Cell::Empty });
        assert(c[i + ei][j + ej] == if on_line(i + ei, j + ej, a, b, di, dj) { p } else { Cell::Empty });
        assert(c[i + 2 * ei][j + 2 * ej] == if on_line(i + 2 * ei, j + 2 * ej, a, b, di, dj) {
            p
        } else {
            Cell::Empty
        });
    }
}

proof fn lemma_lone_lines_at(c: Seq<Seq<Cell>>, a: int, b: int, di: int, dj: int, p: Cell, q: Cell, i: int, j: int)
    requires
        lone_line(c, a, b, di, dj, p),
        p != Cell::Empty,
        q != Cell::Empty,
        0 <= i < c.len(),
        0 <= j < c.len(),
    ensures
        lines_at(c, i, j, q) == if q == p && i == a && j == b {
            1int
        } else {
            0int
        },
{
    lemma_lone_owns(c, a, b, di, dj, p, q, i, j, 0, 1);
    lemma_lone_owns(c, a, b, di, dj, p, q, i, j, 1, 0);
    lemma_lone_owns(c, a, b, di, dj, p, q, i, j, 1, 1);
    lemma_lone_owns(c, a, b, di, dj, p, q, i, j, 1, -1);
}

proof fn lemma_lone_row(c: Seq<Seq<Cell>>, a: int, b: int, di: int, dj: int, p: Cell, q: Cell, i: int, m: int)
    requires
        lone_line(c, a, b, di, dj, p),
        p != Cell::Empty,
        q != Cell::Empty,
        0 <= i < c.len(),
        0 <= m <= c.len(),
    ensures
        lines_in_row(c, i, m, q) == if q == p && i == a && b < m {
            1int
        } else {
            0int
        },
    decreases m,
{
    if m > 0 {
        lemma_lone_row(c, a, b, di, dj, p, q, i, m - 1);
        lemma_lone_lines_at(c, a, b, di, dj, p, q, i, m - 1);
    }
}

proof fn lemma_lone_rows(c: Seq<Seq<Cell>>, a: int, b: int, di: int, dj: int, p: Cell, q: Cell, k: int)
    requires
        lone_line(c, a, b, di, dj, p),
        p != Cell::Empty,
        q != Cell::Empty,
        0 <= k <= c.len(),
    ensures
        lines_in_rows(c, k, q) == if q == p && a < k {
            1int
        } else {
            0int
        },
    decreases k,
{
    if k > 0 {
        lemma_lone_rows(c, a, b, di, dj, p, q, k - 1);
        lemma_lone_row(c, a, b, di, dj, p, q, k - 1, c.len() as int);
    }
}

/// Every line of three counts wherever it lies: a board that holds only
/// three pieces of one player on consecutive cells of a row, a column or
/// either diagonal, anywhere on the board, gives that player one line and the
/// other none, and scores 1 for X or -1 for O.
pub proof fn law_any_line_counts(c: Seq<Seq<Cell>>, a: int, b: int, di: int, dj: int, p: Cell)
    requires
        lone_line(c, a, b, di, dj, p),
        p == Cell::X || p == Cell::O,
    ensures
        line_count(c, p) == 1,
        line_count(c, if p == Cell::X { Cell::O } else { Cell::X }) == 0,
        score_of(c) == if p == Cell::X {
            1int
        } else {
            -1int
        },
{
    lemma_lone_rows(c, a, b, di, dj, p, Cell::X, c.len() as int);
    lemma_lone_rows(c, a, b, di, dj, p, Cell::O, c.len() as int);
}

// ---------------------------------------------------------------------------
// The board
// ---------------------------------------------------------------------------

/// A square board.
#[derive(Debug)]
pub struct Board {
    cells: Vec<Vec<Cell>>,
}

/// The content of a grid of cells.
pub open spec fn grid_view(cells: Seq<Vec<Cell>>) -> Seq<Seq<Cell>> {
    cells.map_values(|r: Vec<Cell>| r@)
}

impl View for Board {
    type V = Seq<Seq<Cell>>;

    closed spec fn view(&self) -> Seq<Seq<Cell>> {
        grid_view(self.cells@)
    }
}

impl Board {
    /// The board is square and not too large.
    pub open spec fn wf(&self) -> bool {
        board_ok(self@)
    }

    /// An empty board of side `size`.
    pub fn new(size: usize) -> (b: Board)
        requires
            size <= MAX_SIZE,
        ensures
            b.wf(),
            b@.len() == size,
            forall|i: int, j: int| 0 <= i < size && 0 <= j < size ==> b@[i][j] == Cell::Empty,
    {
        let mut cells: Vec<Vec<Cell>> = Vec::new();
        for i in 0..size
            invariant
                cells@.len() == i,
                forall|r: int| 0 <= r < i ==> (#[trigger] cells@[r])@.len() == size,
                forall|r: int, j: int| 0 <= r < i && 0 <= j < size ==> cells@[r]@[j] == Cell::Empty,
        {
            let mut row: Vec<Cell> = Vec::new();
            for j in 0..size
                invariant
                    row@.len() == j,
                    forall|t: int| 0 <= t < j ==> row@[t] == Cell::Empty,
            {
                row.push(Cell::Empty);
            }
            cells.push(row);
        }
        Board { cells }
    }

    /// A board with the given cells, if they form a square of side at most
    /// [`MAX_SIZE`].
    pub fn from_cells(cells: Vec<Vec<Cell>>) -> (b: Option<Board>)
        ensures
            b is Some <==> board_ok(grid_view(cells@)),
            b matches Some(board) ==> board@ == grid_view(cells@),
    {
        let n = cells.len();
        if n > MAX_SIZE {
            return None;
        }
        for i in 0..n
            invariant
                n == cells@.len(),
                forall|r: int| 0 <= r < i ==> (#[trigger] cells@[r])@.len() == n,
        {
            if cells[i].len() != n {
                assert(grid_view(cells@)[i as int].len() != grid_view(cells@).len());
                return None;
            }
        }
        Some(Board { cells })
    }

    /// The side length.
    pub fn size(&self) -> (n: usize)
        ensures
            n == self@.len(),
    {
        self.cells.len()
    }

    /// The cells, row by row.
    pub fn get_cells(&self) -> (cells: &Vec<Vec<Cell>>)
        ensures
            grid_view(cells@) == self@,
    {
        &self.cells
    }

    /// The cell at `(row, col)`.
    pub fn cell(&self, row: usize, col: usize) -> (c: Cell)
        requires
            self.wf(),
            row < self@.len(),
            col < self@.len(),
        ensures
            c == self@[row as int][col as int],
    {
        assert(self.cells@[row as int]@ == self@[row as int]);
        self.cells[row][col]
    }

    /// The empty cells, in row-major order.
    pub fn moves(&self) -> (ms: Vec<(usize, usize)>)
        requires
            self.wf(),
        ensures
            ms@ == moves_of(self@),
    {
        let n = self.cells.len();
        let mut ms: Vec<(usize, usize)> = Vec::new();
        for i in 0..n
            invariant
                self.wf(),
                n == self@.len(),
                ms@ == empties_in_rows(self@, i as int),
        {
            let ghost before = ms@;
            for j in 0..n
                invariant
                    self.wf(),
                    n == self@.len(),
                    i < n,
                    ms@ == before + empties_in_row(self@, i as int, j as int),
            {
                if self.cell(i, j) == Cell::Empty {
                    ms.push((i, j));
                }
            }
        }
        ms
    }

    /// Whether no empty cell is left.
    pub fn game_over(&self) -> (over: bool)
        requires
            self.wf(),
        ensures
            over == game_over_of(self@),
    {
        self.moves().len() == 0
    }

    /// The lines of three starting at `(i, j)` that hold `p`.
    fn lines_at(&self, i: usize, j: usize, p: Cell) -> (k: u32)
        requires
            self.wf(),
            i < self@.len(),
            j < self@.len(),
        ensures
            k == lines_at(self@, i as int, j as int, p),
    {
        let n = self.cells.len();
        let mut k: u32 = 0;
        if j + 2 < n && self.cell(i, j) == p && self.cell(i, j + 1) == p && self.cell(i, j + 2) == p {
            k = k + 1;
        }
        if i + 2 < n && self.cell(i, j) == p && self.cell(i + 1, j) == p && self.cell(i + 2, j) == p {
            k = k + 1;
        }
        if i + 2 < n && j + 2 < n && self.cell(i, j) == p && self.cell(i + 1, j + 1) == p
            && self.cell(i + 2, j + 2) == p {
            k = k + 1;
        }
        if i + 2 < n && j >= 2 && self.cell(i, j) == p && self.cell(i + 1, j - 1) == p
            && self.cell(i + 2, j - 2) == p {
            k = k + 1;
        }
        k
    }

    /// The number of lines of three that `p` owns.
    fn count_lines(&self, p: Cell) -> (k: u32)
        requires
            self.wf(),
        ensures
            k == line_count(self@, p),
    {
        let n = self.cells.len();
        let mut k: u32 = 0;
        for i in 0..n
            invariant
                self.wf(),
                n == self@.len(),
                k == lines_in_rows(self@, i as int, p),
        {
            proof {
                lemma_lines_in_rows_bound(self@, i as int, p);
            }
            let ghost before = k as int;
            for j in 0..n
                invariant
                    self.wf(),
                    n == self@.len(),
                    i < n,
                    before == lines_in_rows(self@, i as int, p),
                    0 <= before <= 64 * i,
                    k == before + lines_in_row(self@, i as int, j as int, p),
            {
                proof {
                    lemma_lines_in_row_bound(self@, i as int, j as int, p);
                }
                k = k + self.lines_at(i, j, p);
            }
        }
        k
    }

    /// The score: X's lines of three minus O's.
    pub fn score(&self) -> (s: i32)
        requires
            self.wf(),
        ensures
            s == score_of(self@),
    {
        proof {
            lemma_score_bound(self@);
        }
        let x = self.count_lines(Cell::X);
        let o = self.count_lines(Cell::O);
        x as i32 - o as i32
    }

    /// Places `player`'s piece on the empty cell `m`.
    pub fn apply_move(&mut self, m: (usize, usize), player: Player)
        requires
            old(self).wf(),
            is_empty_cell(old(self)@, m),
        ensures
            final(self)@ == with_cell(old(self)@, m.0 as int, m.1 as int, piece_of(player)),
            final(self).wf(),
    {
        self.cells[m.0][m.1] = player.piece();
        assert(self@ =~= with_cell(old(self)@, m.0 as int, m.1 as int, piece_of(player)));
    }

    /// Takes `player`'s piece back off cell `m`.
    pub fn undo_move(&mut self, m: (usize, usize), player: Player)
        requires
            old(self).wf(),
            m.0 < old(self)@.len(),
            m.1 < old(self)@.len(),
            old(self)@[m.0 as int][m.1 as int] == piece_of(player),
        ensures
            final(self)@ == with_cell(old(self)@, m.0 as int, m.1 as int, Cell::Empty),
            final(self).wf(),
    {
        self.cells[m.0][m.1] = Cell::Empty;
        assert(self@ =~= with_cell(old(self)@, m.0 as int, m.1 as int, Cell::Empty));
    }
}

/// Taking a move back restores the board it was made on.
pub proof fn law_undo_restores(c: Seq<Seq<Cell>>, m: (usize, usize), p: Player)
    requires
        board_ok(c),
        is_empty_cell(c, m),
    ensures
        with_cell(with_cell(c, m.0 as int, m.1 as int, piece_of(p)), m.0 as int, m.1 as int, Cell::Empty) == c,
{
    let back = with_cell(with_cell(c, m.0 as int, m.1 as int, piece_of(p)), m.0 as int, m.1 as int, Cell::Empty);
    assert forall|i: int| 0 <= i < c.len() implies back[i] =~= c[i] by {}
    assert(back =~= c);
}

} // verus!
