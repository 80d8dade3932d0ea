//! Zobrist hashing of boards of side at most five: every piece on every cell
//! has a fixed pseudo-random key, and a board hashes to the XOR of the keys of
//! its pieces.

use vstd::prelude::*;
use crate::board::{Board, Cell, Player, board_ok, piece_of, with_cell};

verus! {

/// The side of the largest board the keys cover.
pub const KEY_SIDE: usize = 5;

/// The state the key generator starts from.
pub const SEED: u64 = 0x123456789ABCDEF0u64;

/// One step of the linear congruential generator that draws the keys.
pub open spec fn lcg_step(s: u64) -> u64 {
    s.wrapping_mul(2862933555777941757u64).wrapping_add(3037000493u64)
}

/// The `n`-th number the generator draws (the seed itself for `n == 0`).
#[verifier::opaque]
pub open spec fn lcg_nth(n: nat) -> u64
    decreases n,
{
    if n == 0 {
        SEED
    } else {
        lcg_step(lcg_nth((n - 1) as nat))
    }
}

/// Each draw steps the generator once.
pub proof fn lemma_lcg_next(n: nat)
    ensures
        lcg_nth(n + 1) == lcg_step(lcg_nth(n)),
{
    reveal(lcg_nth);
}

/// Steps the generator.
fn next_random(seed: u64) -> (next: u64)
    ensures
        next == lcg_step(seed),
{
    seed.wrapping_mul(2862933555777941757).wrapping_add(3037000493)
}

/// Fixed keys for each piece on each cell.
pub struct ZobristTable {
    x_hashes: [[u64; 5]; 5],
    o_hashes: [[u64; 5]; 5],
    wall_hashes: [[u64; 5]; 5],
}

/// The position of cell `(i, j)` in the order the keys are drawn, X first,
/// then O, then the wall.
pub open spec fn draw_index(i: int, j: int) -> int {
    3 * (5 * i + j)
}

impl ZobristTable {
    /// The key of an X on `(i, j)`.
    pub closed spec fn x_key(&self, i: int, j: int) -> u64 {
        self.x_hashes[i][j]
    }

    /// The key of an O on `(i, j)`.
    pub closed spec fn o_key(&self, i: int, j: int) -> u64 {
        self.o_hashes[i][j]
    }

    /// The key of a wall on `(i, j)`.
    pub closed spec fn wall_key(&self, i: int, j: int) -> u64 {
        self.wall_hashes[i][j]
    }

    /// What a cell holding `c` at `(i, j)` adds to the hash (nothing when
    /// empty).
    pub open spec fn cell_key(&self, c: Cell, i: int, j: int) -> u64 {
        match c {
            Cell::X => self.x_key(i, j),
            Cell::O => self.o_key(i, j),
            Cell::Wall => self.wall_key(i, j),
            Cell::Empty => 0,
        }
    }

    /// The keys are drawn from the generator cell by cell in row-major order,
    /// X then O then wall for each cell.
    pub open spec fn drawn_from_seed(&self) -> bool {
        forall|i: int, j: int|
            0 <= i < 5 && 0 <= j < 5 ==> {
                &&& #[trigger] self.x_key(i, j) == lcg_nth((draw_index(i, j) + 1) as nat)
                &&& self.o_key(i, j) == lcg_nth((draw_index(i, j) + 2) as nat)
                &&& self.wall_key(i, j) == lcg_nth((draw_index(i, j) + 3) as nat)
            }
    }

    /// Draws the keys from the generator, starting at [`SEED`].
    pub fn new() -> (t: ZobristTable)
        ensures
            t.drawn_from_seed(),
    {
        let mut seed = SEED;
        let mut x_hashes = [[0u64; 5]; 5];
        let mut o_hashes = [[0u64; 5]; 5];
        let mut wall_hashes = [[0u64; 5]; 5];
        let ghost mut drawn: nat = 0;
        proof {
            reveal(lcg_nth);
        }
        for i in 0..5usize
            invariant
                seed == lcg_nth(drawn),
                drawn == draw_index(i as int, 0),
                forall|a: int, b: int|
                    0 <= a < i && 0 <= b < 5 ==> #[trigger] x_hashes[a][b] == lcg_nth((draw_index(a, b) + 1) as nat),
                forall|a: int, b: int|
                    0 <= a < i && 0 <= b < 5 ==> #[trigger] o_hashes[a][b] == lcg_nth((draw_index(a, b) + 2) as nat),
                forall|a: int, b: int|
                    0 <= a < i && 0 <= b < 5 ==> #[trigger] wall_hashes[a][b] == lcg_nth((draw_index(a, b) + 3) as nat),
        {
            for j in 0..5usize
                invariant
                    i < 5,
                    seed == lcg_nth(drawn),
                    drawn == draw_index(i as int, j as int),
                    forall|a: int, b: int|
                        (0 <= a < i && 0 <= b < 5) || (a == i && 0 <= b < j) ==> #[trigger] x_hashes[a][b] == lcg_nth((draw_index(a, b) + 1) as nat),
                    forall|a: int, b: int|
                        (0 <= a < i && 0 <= b < 5) || (a == i && 0 <= b < j) ==> #[trigger] o_hashes[a][b] == lcg_nth((draw_index(a, b) + 2) as nat),
                    forall|a: int, b: int|
                        (0 <= a < i && 0 <= b < 5) || (a == i && 0 <= b < j) ==> #[trigger] wall_hashes[a][b] == lcg_nth((draw_index(a, b) + 3) as nat),
            {
                proof {
                    lemma_lcg_next(drawn);
                    lemma_lcg_next(drawn + 1);
                    lemma_lcg_next(drawn + 2);
                }
                seed = next_random(seed);
                x_hashes[i][j] = seed;
                seed = next_random(seed);
                o_hashes[i][j] = seed;
                seed = next_random(seed);
                wall_hashes[i][j] = seed;
                proof {
                    drawn = drawn + 3;
                }
            }
        }
        ZobristTable { x_hashes, o_hashes, wall_hashes }
    }
}


/// The XOR of the keys of the pieces in row `i` among its first `m` columns.
pub open spec fn hash_row(t: ZobristTable, c: Seq<Seq<Cell>>, i: int, m: int) -> u64
    decreases m,
{
    if m <= 0 {
        0
    } else {
        hash_row(t, c, i, m - 1) ^ t.cell_key(c[i][m - 1], i, m - 1)
    }
}

/// The XOR of the keys of the pieces in the first `k` rows.
pub open spec fn hash_rows(t: ZobristTable, c: Seq<Seq<Cell>>, k: int) -> u64
    decreases k,
{
    if k <= 0 {
        0
    } else {
        hash_rows(t, c, k - 1) ^ hash_row(t, c, k - 1, c.len() as int)
    }
}

/// The hash of a board: the XOR of the keys of all its pieces.
pub open spec fn board_hash(t: ZobristTable, c: Seq<Seq<Cell>>) -> u64 {
    hash_rows(t, c, c.len() as int)
}

impl ZobristTable {
    /// The key of `player`'s piece on `(i, j)`.
    pub fn piece_key(&self, player: Player, i: usize, j: usize) -> (k: u64)
        requires
            i < KEY_SIDE,
            j < KEY_SIDE,
        ensures
            k == self.cell_key(piece_of(player), i as int, j as int),
    {
        match player {
            Player::X => self.x_hashes[i][j],
            Player::O => self.o_hashes[i][j],
        }
    }

    /// The hash of `board`: the XOR of the keys of its pieces.
    pub fn hash_board(&self, board: &Board) -> (h: u64)
        requires
            board.wf(),
            board@.len() <= KEY_SIDE,
        ensures
            h == board_hash(*self, board@),
    {
        let size = board.size();
        let mut hash = 0u64;
        for i in 0..size
            invariant
                board.wf(),
                size == board@.len(),
                size <= KEY_SIDE,
                hash == hash_rows(*self, board@, i as int),
        {
            let ghost before = hash;
            proof {
                lemma_xor_zero(before);
            }
            for j in 0..size
                invariant
                    board.wf(),
                    size == board@.len(),
                    size <= KEY_SIDE,
                    i < size,
                    before == hash_rows(*self, board@, i as int),
                    hash == before ^ hash_row(*self, board@, i as int, j as int),
            {
                let cell = board.cell(i, j);
                let key = match cell {
                    Cell::X => self.x_hashes[i][j],
                    Cell::O => self.o_hashes[i][j],
                    Cell::Wall => self.wall_hashes[i][j],
                    Cell::Empty => 0,
                };
                proof {
                    let r = hash_row(*self, board@, i as int, j as int);
                    lemma_xor_assoc(before, r, key);
                }
                hash = hash ^ key;
            }
        }
        hash
    }
}

proof fn lemma_xor_assoc(a: u64, b: u64, c: u64)
    ensures
        (a ^ b) ^ c == a ^ (b ^ c),
{
    assert((a ^ b) ^ c == a ^ (b ^ c)) by (bit_vector);
}

proof fn lemma_xor_zero(a: u64)
    ensures
        a ^ 0 == a,
        0 ^ a == a,
{
    assert(a ^ 0 == a && 0 ^ a == a) by (bit_vector);
}

proof fn lemma_xor_swap(a: u64, b: u64, k: u64)
    ensures
        (a ^ k) ^ b == (a ^ b) ^ k,
{
    assert((a ^ k) ^ b == (a ^ b) ^ k) by (bit_vector);
}

proof fn lemma_row_after_fill(t: ZobristTable, c: Seq<Seq<Cell>>, a: int, b: int, v: Cell, i: int, m: int)
    requires
        board_ok(c),
        0 <= a < c.len(),
        0 <= b < c.len(),
        c[a][b] == Cell::Empty,
        0 <= i < c.len(),
        0 <= m <= c.len(),
    ensures
        hash_row(t, with_cell(c, a, b, v), i, m) == hash_row(t, c, i, m) ^ (if i == a && b < m {
            t.cell_key(v, a, b)
        } else {
            0u64
        }),
    decreases m,
{
    let c2 = with_cell(c, a, b, v);
    let k = t.cell_key(v, a, b);
    if m > 0 {
        lemma_row_after_fill(t, c, a, b, v, i, m - 1);
        let h = hash_row(t, c, i, m - 1);
        if i == a && b == m - 1 {
            lemma_xor_zero(h);
            lemma_xor_zero(k);
            assert(t.cell_key(c[i][m - 1], i, m - 1) == 0u64);
        } else if i == a && b < m - 1 {
            lemma_xor_swap(h, t.cell_key(c[i][m - 1], i, m - 1), k);
            assert(c2[i][m - 1] == c[i][m - 1]);
        } else {
            lemma_xor_zero(h);
            lemma_xor_zero(hash_row(t, c, i, m));
            assert(c2[i][m - 1] == c[i][m - 1]);
        }
    } else {
        lemma_xor_zero(0u64);
    }
}

proof fn lemma_rows_after_fill(t: ZobristTable, c: Seq<Seq<Cell>>, a: int, b: int, v: Cell, k: int)
    requires
        board_ok(c),
        0 <= a < c.len(),
        0 <= b < c.len(),
        c[a][b] == Cell::Empty,
        0 <= k <= c.len(),
    ensures
        hash_rows(t, with_cell(c, a, b, v), k) == hash_rows(t, c, k) ^ (if a < k {
            t.cell_key(v, a, b)
        } else {
            0u64
        }),
    decreases k,
{
    let key = t.cell_key(v, a, b);
    if k > 0 {
        lemma_rows_after_fill(t, c, a, b, v, k - 1);
        lemma_row_after_fill(t, c, a, b, v, k - 1, c.len() as int);
        let h = hash_rows(t, c, k - 1);
        let r = hash_row(t, c, k - 1, c.len() as int);
        if a == k - 1 {
            lemma_xor_zero(h);
            lemma_xor_assoc(h, r, key);
        } else if a < k - 1 {
            lemma_xor_zero(r);
            lemma_xor_swap(h, r, key);
        } else {
            lemma_xor_zero(h);
            lemma_xor_zero(r);
            lemma_xor_zero(hash_rows(t, c, k));
        }
    } else {
        lemma_xor_zero(0u64);
    }
}

/// Placing a piece on an empty cell changes the hash by exactly that piece's
/// key: a search can keep the hash up to date with one XOR per move.
pub proof fn law_hash_after_move(t: ZobristTable, c: Seq<Seq<Cell>>, m: (usize, usize), v: Cell)
    requires
        board_ok(c),
        m.0 < c.len(),
        m.1 < c.len(),
        c[m.0 as int][m.1 as int] == Cell::Empty,
    ensures
        board_hash(t, with_cell(c, m.0 as int, m.1 as int, v)) == board_hash(t, c) ^ t.cell_key(v, m.0 as int, m.1 as int),
{
    lemma_rows_after_fill(t, c, m.0 as int, m.1 as int, v, c.len() as int);
}


/// Each piece counts in the hash by its own drawn key, walls included:
/// placing an X, an O or a wall on an empty cell `(i, j)` changes the hash by
/// exactly the key drawn for that piece on that cell.
pub proof fn law_hash_counts_every_piece(t: ZobristTable, c: Seq<Seq<Cell>>, i: usize, j: usize)
    requires
        board_ok(c),
        i < c.len(),
        j < c.len(),
        c[i as int][j as int] == Cell::Empty,
    ensures
        board_hash(t, with_cell(c, i as int, j as int, Cell::X)) == board_hash(t, c) ^ t.x_key(i as int, j as int),
        board_hash(t, with_cell(c, i as int, j as int, Cell::O)) == board_hash(t, c) ^ t.o_key(i as int, j as int),
        board_hash(t, with_cell(c, i as int, j as int, Cell::Wall)) == board_hash(t, c) ^ t.wall_key(i as int, j as int),
{
    law_hash_after_move(t, c, (i, j), Cell::X);
    law_hash_after_move(t, c, (i, j), Cell::O);
    law_hash_after_move(t, c, (i, j), Cell::Wall);
}

} // verus!
