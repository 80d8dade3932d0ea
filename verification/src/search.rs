//! The search of the alpha-beta agent: a transposition table, alpha-beta
//! search with a node counter that paces the clock, and iterative deepening.

use vstd::prelude::*;
use crate::clock::{clock_now, time_is_up};
use crate::zobrist::{ZobristTable, board_hash};
use crate::board::{other, piece_of, with_cell};
use std::time::Instant;
use crate::board::{
    Board, Cell, Player, board_ok, game_over_of, is_empty_cell,
    lemma_moves_are_empty_cells, moves_of, score_of,
};
use crate::alphabeta::{
    SolutionAgent, Window, MAX_SIDE, MAX_WINDOWS, abs, heuristic_bound, heuristic_value, lemma_heuristic_bound,
    lemma_key_range, lemma_ordered_len, lemma_ordered_members, lemma_windows_fit, order_moves, ordered_moves, windows_fit,
    windows_of,
};

verus! {

// ---------------------------------------------------------------------------
// Transposition table
// ---------------------------------------------------------------------------

/// What a stored score means.
#[derive(Clone, Copy, Debug, PartialEq, Eq, Structural)]
pub enum EntryType {
    /// The score is the position's value.
    Exact,
    /// The position's value is at most the score.
    UpperBound,
    /// The position's value is at least the score.
    LowerBound,
}

/// A remembered search result.
#[derive(Clone, Copy, Debug)]
pub struct TableEntry {
    /// The hash of the position.
    pub key: u64,
    /// How deep the position was searched.
    pub depth: u8,
    pub score: i32,
    pub kind: EntryType,
    /// The best move found, as `(row, col)`.
    pub best_move: (u8, u8),
}

/// The number of slots of the transposition table (2 to the 18th).
pub const TABLE_SIZE: usize = 262144;

/// The score of a won game per line of three of difference.
pub const WIN_SCORE: i32 = 1_000_000;

/// The largest magnitude a search result can have.
pub open spec fn search_bound() -> int {
    heuristic_bound()
}

/// The slot a hash selects.
pub open spec fn slot_of(key: u64, len: int) -> int {
    (key as usize) as int % len
}

/// Every entry sits in the slot its key selects, holds a score within the
/// search bound, a positive depth, and a move on a board of side at most five.
pub open spec fn table_ok(t: Seq<Option<TableEntry>>) -> bool {
    forall|i: int|
        0 <= i < t.len() ==> match #[trigger] t[i] {
            Some(e) => {
                &&& slot_of(e.key, t.len() as int) == i
                &&& -search_bound() <= e.score <= search_bound()
                &&& e.depth >= 1
                &&& e.best_move.0 < MAX_SIDE
                &&& e.best_move.1 < MAX_SIDE
            },
            None => true,
        }
}

/// The score a table lookup answers with, if any: an entry for this hash,
/// searched at least as deep, that is exact, an upper bound at most `alpha`,
/// or a lower bound at least `beta`.
pub open spec fn table_answer(t: Seq<Option<TableEntry>>, hash: u64, depth: u8, alpha: i32, beta: i32) -> Option<i32> {
    match t[slot_of(hash, t.len() as int)] {
        Some(e) => if e.key == hash && e.depth >= depth {
            match e.kind {
                EntryType::Exact => Some(e.score),
                EntryType::UpperBound => if e.score <= alpha {
                    Some(e.score)
                } else {
                    None
                },
                EntryType::LowerBound => if e.score >= beta {
                    Some(e.score)
                } else {
                    None
                },
            }
        } else {
            None
        },
        None => None,
    }
}

/// The best move remembered for this hash, if any.
pub open spec fn remembered_move(t: Seq<Option<TableEntry>>, hash: u64) -> Option<(u8, u8)> {
    match t[slot_of(hash, t.len() as int)] {
        Some(e) => Some(e.best_move),
        None => None,
    }
}

/// The kind a search stores with its result: it compares the result with the
/// window as the search has narrowed it, so a search for X always stores an
/// upper bound, and one for O a lower bound unless the result is at most
/// `alpha`.
pub open spec fn stored_kind(p: Player, score: i32, alpha: i32) -> EntryType {
    match p {
        Player::X => EntryType::UpperBound,
        Player::O => if score <= alpha {
            EntryType::UpperBound
        } else {
            EntryType::LowerBound
        },
    }
}

/// The slot of `hash` holds an entry for `hash` with this depth, score and
/// kind, and a best move that is an empty cell of `c`.
pub open spec fn remembers(t: Seq<Option<TableEntry>>, hash: u64, depth: u8, score: i32, kind: EntryType, c: Seq<Seq<Cell>>) -> bool {
    match t[slot_of(hash, t.len() as int)] {
        Some(e) => {
            &&& e.key == hash
            &&& e.depth == depth
            &&& e.score == score
            &&& e.kind == kind
            &&& is_empty_cell(c, (e.best_move.0 as usize, e.best_move.1 as usize))
        },
        None => false,
    }
}

/// An empty transposition table.
pub fn empty_table(len: usize) -> (t: Vec<Option<TableEntry>>)
    ensures
        t@.len() == len,
        forall|i: int| 0 <= i < len ==> t@[i] is None,
{
    let mut t: Vec<Option<TableEntry>> = Vec::new();
    for i in 0..len
        invariant
            t@.len() == i,
            forall|k: int| 0 <= k < i ==> t@[k] is None,
    {
        t.push(None);
    }
    t
}

// ---------------------------------------------------------------------------
// What a search computes
// ---------------------------------------------------------------------------

/// Where a search through the moves of a position stands: the best score and
/// move so far, the window as narrowed so far, the table, and whether the
/// window has closed.
#[verifier::ext_equal]
pub struct SearchProgress {
    pub best: i32,
    pub best_move: (u8, u8),
    pub alpha: i32,
    pub beta: i32,
    pub table: Seq<Option<TableEntry>>,
    pub pruned: bool,
    /// The nodes the moves searched so far have visited.
    pub nodes: nat,
}

/// A move as the table stores it.
pub open spec fn move_as_u8(m: (usize, usize)) -> (u8, u8) {
    (m.0 as u8, m.1 as u8)
}

/// The order in which a search tries the moves of `c`: the move the table
/// slot of `hash` remembers first, then by distance to the centre.
pub open spec fn node_moves(c: Seq<Seq<Cell>>, t: Seq<Option<TableEntry>>, hash: u64) -> Seq<(usize, usize)> {
    ordered_moves(moves_of(c), remembered_move(t, hash), (c.len() / 2) as int, (2 * c.len()) as int)
}

/// The kind a search stores, comparing its result with the narrowed window.
pub open spec fn kind_for(best: i32, alpha: i32, beta: i32) -> EntryType {
    if best <= alpha {
        EntryType::UpperBound
    } else if best >= beta {
        EntryType::LowerBound
    } else {
        EntryType::Exact
    }
}

/// The score a search starts from, as an `i32`.
pub open spec fn start_of(p: Player) -> i32 {
    match p {
        Player::X => i32::MIN,
        Player::O => i32::MAX,
    }
}

/// The result, the table and the number of nodes visited after a search of `c`
/// to `depth` with `p` to move and window `(alpha, beta)`, when the clock never
/// stops it: the weighted score of a finished game, the heuristic at depth
/// zero, a table answer when there is one (each of these visiting one node),
/// and otherwise the best result over the moves in search order (stopping once
/// the window closes), remembered in the slot of `hash`.
pub open spec fn search_value(
    z: ZobristTable,
    ws: Seq<Window>,
    c: Seq<Seq<Cell>>,
    p: Player,
    depth: u8,
    alpha: i32,
    beta: i32,
    hash: u64,
    t: Seq<Option<TableEntry>>,
) -> (i32, Seq<Option<TableEntry>>, nat)
    decreases depth, 1int, 0int,
{
    if !board_ok(c) || game_over_of(c) {
        ((score_of(c) * WIN_SCORE) as i32, t, 1)
    } else if depth == 0 {
        (heuristic_value(c, ws) as i32, t, 1)
    } else {
        match table_answer(t, hash, depth, alpha, beta) {
            Some(v) => (v, t, 1),
            None => {
                let ms = node_moves(c, t, hash);
                let fin = search_moves(z, ws, c, p, depth, hash, t, alpha, beta, ms, ms.len() as int);
                (
                    fin.best,
                    fin.table.update(
                        slot_of(hash, t.len() as int),
                        Some(
                            TableEntry {
                                key: hash,
                                depth,
                                score: fin.best,
                                kind: kind_for(fin.best, fin.alpha, fin.beta),
                                best_move: fin.best_move,
                            },
                        ),
                    ),
                    1 + fin.nodes,
                )
            },
        }
    }
}

/// The search through the first `k` moves of `ms`.
pub open spec fn search_moves(
    z: ZobristTable,
    ws: Seq<Window>,
    c: Seq<Seq<Cell>>,
    p: Player,
    depth: u8,
    hash: u64,
    t0: Seq<Option<TableEntry>>,
    alpha0: i32,
    beta0: i32,
    ms: Seq<(usize, usize)>,
    k: int,
) -> SearchProgress
    decreases depth, 0int, k,
{
    if k <= 0 || depth == 0 || k > ms.len() {
        SearchProgress {
            best: start_of(p),
            best_move: move_as_u8(ms[0]),
            alpha: alpha0,
            beta: beta0,
            table: t0,
            pruned: false,
            nodes: 0,
        }
    } else {
        let prev = search_moves(z, ws, c, p, depth, hash, t0, alpha0, beta0, ms, k - 1);
        if prev.pruned {
            prev
        } else {
            let m = ms[k - 1];
            let child = search_value(
                z,
                ws,
                with_cell(c, m.0 as int, m.1 as int, piece_of(p)),
                other(p),
                (depth - 1) as u8,
                prev.alpha,
                prev.beta,
                hash ^ z.cell_key(piece_of(p), m.0 as int, m.1 as int),
                prev.table,
            );
            let better = match p {
                Player::X => child.0 > prev.best,
                Player::O => child.0 < prev.best,
            };
            let best = if better {
                child.0
            } else {
                prev.best
            };
            let best_move = if better {
                move_as_u8(m)
            } else {
                prev.best_move
            };
            let alpha = if p == Player::X && best > prev.alpha {
                best
            } else {
                prev.alpha
            };
            let beta = if p == Player::O && best < prev.beta {
                best
            } else {
                prev.beta
            };
            SearchProgress {
                best,
                best_move,
                alpha,
                beta,
                table: child.1,
                pruned: beta <= alpha,
                nodes: prev.nodes + child.2,
            }
        }
    }
}

/// Once the window has closed, later moves change nothing.
proof fn lemma_pruned_stays(
    z: ZobristTable,
    ws: Seq<Window>,
    c: Seq<Seq<Cell>>,
    p: Player,
    depth: u8,
    hash: u64,
    t0: Seq<Option<TableEntry>>,
    alpha0: i32,
    beta0: i32,
    ms: Seq<(usize, usize)>,
    k: int,
    k2: int,
)
    requires
        depth > 0,
        1 <= k <= k2 <= ms.len(),
        search_moves(z, ws, c, p, depth, hash, t0, alpha0, beta0, ms, k).pruned,
    ensures
        search_moves(z, ws, c, p, depth, hash, t0, alpha0, beta0, ms, k2) == search_moves(
            z,
            ws,
            c,
            p,
            depth,
            hash,
            t0,
            alpha0,
            beta0,
            ms,
            k,
        ),
    decreases k2 - k,
{
    if k2 > k {
        lemma_pruned_stays(z, ws, c, p, depth, hash, t0, alpha0, beta0, ms, k, k2 - 1);
    }
}

/// The table left by a search stopped by the clock at its `v`-th node: the
/// entries of the searches that finished before that node, and no entry
/// written after it.
pub open spec fn stopped_table(
    z: ZobristTable,
    ws: Seq<Window>,
    c: Seq<Seq<Cell>>,
    p: Player,
    depth: u8,
    alpha: i32,
    beta: i32,
    hash: u64,
    t: Seq<Option<TableEntry>>,
    v: nat,
) -> Seq<Option<TableEntry>>
    decreases depth, 1int, 0int,
{
    if v <= 1 || !board_ok(c) || game_over_of(c) || depth == 0 || table_answer(t, hash, depth, alpha, beta) is Some {
        t
    } else {
        let ms = node_moves(c, t, hash);
        stopped_in_moves(z, ws, c, p, depth, hash, t, alpha, beta, ms, ms.len() as int, (v - 1) as nat)
    }
}

/// The table left when the clock stops the searches of the first `k` moves
/// of `ms` at the `v`-th node they visit.
pub open spec fn stopped_in_moves(
    z: ZobristTable,
    ws: Seq<Window>,
    c: Seq<Seq<Cell>>,
    p: Player,
    depth: u8,
    hash: u64,
    t0: Seq<Option<TableEntry>>,
    alpha0: i32,
    beta0: i32,
    ms: Seq<(usize, usize)>,
    k: int,
    v: nat,
) -> Seq<Option<TableEntry>>
    decreases depth, 0int, k,
{
    if k <= 0 || depth == 0 || k > ms.len() {
        t0
    } else {
        let prev = search_moves(z, ws, c, p, depth, hash, t0, alpha0, beta0, ms, k - 1);
        if v <= prev.nodes {
            stopped_in_moves(z, ws, c, p, depth, hash, t0, alpha0, beta0, ms, k - 1, v)
        } else {
            let m = ms[k - 1];
            stopped_table(
                z,
                ws,
                with_cell(c, m.0 as int, m.1 as int, piece_of(p)),
                other(p),
                (depth - 1) as u8,
                prev.alpha,
                prev.beta,
                hash ^ z.cell_key(piece_of(p), m.0 as int, m.1 as int),
                prev.table,
                (v - prev.nodes) as nat,
            )
        }
    }
}

/// Moves searched after the one where the clock stopped change nothing.
proof fn lemma_stopped_in_later(
    z: ZobristTable,
    ws: Seq<Window>,
    c: Seq<Seq<Cell>>,
    p: Player,
    depth: u8,
    hash: u64,
    t0: Seq<Option<TableEntry>>,
    alpha0: i32,
    beta0: i32,
    ms: Seq<(usize, usize)>,
    k: int,
    k2: int,
    v: nat,
)
    requires
        depth > 0,
        1 <= k <= k2 <= ms.len(),
        v <= search_moves(z, ws, c, p, depth, hash, t0, alpha0, beta0, ms, k).nodes,
    ensures
        stopped_in_moves(z, ws, c, p, depth, hash, t0, alpha0, beta0, ms, k2, v) == stopped_in_moves(
            z,
            ws,
            c,
            p,
            depth,
            hash,
            t0,
            alpha0,
            beta0,
            ms,
            k,
            v,
        ),
    decreases k2 - k,
{
    if k2 > k {
        lemma_stopped_in_later(z, ws, c, p, depth, hash, t0, alpha0, beta0, ms, k, k2 - 1, v);
        lemma_nodes_grow(z, ws, c, p, depth, hash, t0, alpha0, beta0, ms, k, k2 - 1);
    }
}

/// A search stopped in the search of its next move leaves the table that
/// move's search leaves.
proof fn lemma_stopped_child(
    z: ZobristTable,
    ws: Seq<Window>,
    c: Seq<Seq<Cell>>,
    p: Player,
    depth: u8,
    alpha0: i32,
    beta0: i32,
    hash: u64,
    t0: Seq<Option<TableEntry>>,
    k: int,
    vc: nat,
)
    requires
        depth > 0,
        board_ok(c),
        !game_over_of(c),
        table_answer(t0, hash, depth, alpha0, beta0) is None,
        0 <= k < node_moves(c, t0, hash).len(),
        !search_moves(z, ws, c, p, depth, hash, t0, alpha0, beta0, node_moves(c, t0, hash), k).pruned,
        1 <= vc <= ({
            let ms = node_moves(c, t0, hash);
            let prev = search_moves(z, ws, c, p, depth, hash, t0, alpha0, beta0, ms, k);
            let m = ms[k];
            search_nodes(
                z,
                ws,
                with_cell(c, m.0 as int, m.1 as int, piece_of(p)),
                other(p),
                (depth - 1) as u8,
                prev.alpha,
                prev.beta,
                hash ^ z.cell_key(piece_of(p), m.0 as int, m.1 as int),
                prev.table,
            )
        }),
    ensures
        ({
            let ms = node_moves(c, t0, hash);
            let prev = search_moves(z, ws, c, p, depth, hash, t0, alpha0, beta0, ms, k);
            let m = ms[k];
            stopped_table(z, ws, c, p, depth, alpha0, beta0, hash, t0, 1 + prev.nodes + vc) == stopped_table(
                z,
                ws,
                with_cell(c, m.0 as int, m.1 as int, piece_of(p)),
                other(p),
                (depth - 1) as u8,
                prev.alpha,
                prev.beta,
                hash ^ z.cell_key(piece_of(p), m.0 as int, m.1 as int),
                prev.table,
                vc,
            )
        }),
{
    let ms = node_moves(c, t0, hash);
    let prev = search_moves(z, ws, c, p, depth, hash, t0, alpha0, beta0, ms, k);
    lemma_next_move_nodes(z, ws, c, p, depth, hash, t0, alpha0, beta0, ms, k);
    lemma_stopped_in_later(z, ws, c, p, depth, hash, t0, alpha0, beta0, ms, k + 1, ms.len() as int, prev.nodes + vc);
    assert(((prev.nodes + vc) - prev.nodes) as nat == vc);
}

// ---------------------------------------------------------------------------
// Counting nodes
// ---------------------------------------------------------------------------

/// The node counter `v` nodes after `n`: it wraps around past `u64::MAX`.
#[verifier::opaque]
pub open spec fn advance(n: u64, v: nat) -> u64 {
    ((n as int + v) % 0x1_0000_0000_0000_0000int) as u64
}

/// Whether the `v`-th node counted after `n` reads the clock: the counter
/// then reaches a multiple of 1024.
#[verifier::opaque]
pub open spec fn checks_clock(n: u64, v: nat) -> bool {
    (n as int + v) % 1024 == 0
}

/// A search that found the counter at `n0` was stopped by the clock at its
/// `v`-th node, leaving the counter at `n1`.
#[verifier::opaque]
pub open spec fn stopped_at(n0: u64, v: nat, n1: u64) -> bool {
    n1 == advance(n0, v) && checks_clock(n0, v)
}

/// No node among the `v` counted after `n` reads the clock.
#[verifier::opaque]
pub open spec fn no_check_within(n: u64, v: nat) -> bool {
    (n as int % 1024) + v < 1024
}

/// Counting one node is a wrapping increment.
proof fn lemma_advance_one(n: u64)
    ensures
        advance(n, 1) as int == if n == u64::MAX {
            0
        } else {
            n + 1
        },
{
    reveal(advance);
    if n < u64::MAX {
        vstd::arithmetic::div_mod::lemma_small_mod((n + 1) as nat, 0x1_0000_0000_0000_0000nat);
    } else {
        vstd::arithmetic::div_mod::lemma_mod_self_0(0x1_0000_0000_0000_0000int);
    }
}

/// Counting `a` nodes and then `b` more counts `a + b`, and the clock is read
/// at the same nodes either way.
proof fn lemma_advance_twice(n: u64, a: nat, b: nat)
    ensures
        advance(advance(n, a), b) == advance(n, a + b),
        checks_clock(advance(n, a), b) == checks_clock(n, a + b),
        advance(n, a) as int % 1024 == (n as int + a) % 1024,
{
    reveal(advance);
    reveal(checks_clock);
    let m: int = 0x1_0000_0000_0000_0000int;
    let x: int = n as int + a;
    assert(0 <= x % m < m) by {
        vstd::arithmetic::div_mod::lemma_mod_pos_bound(x, m);
    }
    assert(advance(n, a) as int == x % m);
    vstd::arithmetic::div_mod::lemma_add_mod_noop(x, b as int, m);
    vstd::arithmetic::div_mod::lemma_mod_twice(x, m);
    vstd::arithmetic::div_mod::lemma_small_mod(b as nat % m as nat, m as nat);
    assert((x % m + b) % m == (x + b) % m) by {
        vstd::arithmetic::div_mod::lemma_add_mod_noop(x % m, b as int, m);
        vstd::arithmetic::div_mod::lemma_mod_twice(x, m);
    }
    assert((x % m) % 1024 == x % 1024) by {
        vstd::arithmetic::div_mod::lemma_mod_mod(x, 1024, 0x40_0000_0000_0000int);
    }
    assert((x % m + b) % 1024 == (x + b) % 1024) by {
        vstd::arithmetic::div_mod::lemma_add_mod_noop(x % m, b as int, 1024);
        vstd::arithmetic::div_mod::lemma_add_mod_noop(x, b as int, 1024);
    }
}

/// With no clock reading among them, `v` nodes after `n` do not wrap.
proof fn lemma_no_check(n: u64, v: nat, w: nat)
    requires
        no_check_within(n, v),
        1 <= w <= v,
    ensures
        !checks_clock(n, w),
        advance(n, v) as int == n + v,
{
    reveal(advance);
    reveal(checks_clock);
    reveal(no_check_within);
    let r = n as int % 1024;
    let q = n as int / 1024;
    assert(n as int == 1024 * q + r && 0 <= r < 1024) by {
        vstd::arithmetic::div_mod::lemma_fundamental_div_mod(n as int, 1024);
        vstd::arithmetic::div_mod::lemma_mod_pos_bound(n as int, 1024);
    }
    assert((n as int + w) % 1024 == r + w) by {
        vstd::arithmetic::div_mod::lemma_mod_multiples_vanish(q, r + w, 1024);
        vstd::arithmetic::div_mod::lemma_small_mod((r + w) as nat, 1024);
    }
    assert(q <= 0x3f_ffff_ffff_ffff) by (nonlinear_arith)
        requires
            n as int == 1024 * q + r,
            0 <= r < 1024,
            n as int <= u64::MAX,
    ;
    assert(n as int + v < 0x1_0000_0000_0000_0000int) by (nonlinear_arith)
        requires
            n as int == 1024 * q + r,
            r + v < 1024,
            q <= 0x3f_ffff_ffff_ffff,
    ;
    vstd::arithmetic::div_mod::lemma_small_mod((n as int + v) as nat, 0x1_0000_0000_0000_0000nat);
}

/// The clock read at a search's own node stops it there.
proof fn lemma_first_check(n0: u64, n1: u64)
    requires
        n1 == advance(n0, 1),
        n1 & 1023 == 0,
    ensures
        stopped_at(n0, 1, n1),
{
    reveal(stopped_at);
    reveal(checks_clock);
    assert(n1 & 1023 == n1 % 1024) by (bit_vector);
    lemma_advance_twice(n0, 1, 0);
}

/// A search that counted all its nodes without the clock stopping it, or was
/// stopped at one of them, settles the counter: with no clock reading among
/// its nodes, it finished and counted them all without wrapping.
proof fn lemma_counter_settles(out0: bool, n0: u64, n1: u64, total: nat, stopped: bool)
    requires
        total >= 1,
        !out0 && !stopped ==> n1 == advance(n0, total),
        !out0 && stopped ==> exists|v: nat| 1 <= v <= total && #[trigger] stopped_at(n0, v, n1),
    ensures
        !out0 && no_check_within(n0, total) ==> !stopped && n1 == n0 + total,
        !out0 && (n0 + 1) % 1024 != 0 && total == 1 ==> !stopped && n1 == n0 + 1,
{
    reveal(stopped_at);
    reveal(no_check_within);
    if !out0 {
        if (n0 + 1) % 1024 != 0 && total == 1 {
            let q = n0 as int / 1024;
            let r = n0 as int % 1024;
            assert(n0 as int == 1024 * q + r && 0 <= r < 1024) by {
                vstd::arithmetic::div_mod::lemma_fundamental_div_mod(n0 as int, 1024);
                vstd::arithmetic::div_mod::lemma_mod_pos_bound(n0 as int, 1024);
            }
            if r == 1023 {
                assert(n0 as int + 1 == 1024 * (q + 1));
                vstd::arithmetic::div_mod::lemma_mod_multiples_vanish(q + 1, 0, 1024);
                assert(false);
            }
            assert(no_check_within(n0, 1));
        }
        if no_check_within(n0, total) {
            if stopped {
                let v = choose|v: nat| 1 <= v <= total && #[trigger] stopped_at(n0, v, n1);
                lemma_no_check(n0, total, v);
            } else {
                lemma_no_check(n0, total, 1);
            }
        }
    }
}

/// The counter after a child search, counted from where the parent's search
/// started: `a` nodes were counted before the child, which counts `vc` more
/// or is stopped among them.
proof fn lemma_count_child(n0: u64, a: nat, nb: u64, n1: u64, vc: nat, stopped: bool, total: nat)
    requires
        nb == advance(n0, 1 + a),
        !stopped ==> n1 == advance(nb, vc),
        stopped ==> exists|v: nat| 1 <= v <= vc && #[trigger] stopped_at(nb, v, n1),
        1 + a + vc <= total,
    ensures
        !stopped ==> n1 == advance(n0, 1 + a + vc),
        stopped ==> exists|v: nat| 1 <= v <= total && #[trigger] stopped_at(n0, v, n1),
{
    reveal(stopped_at);
    if stopped {
        let v = choose|v: nat| 1 <= v <= vc && #[trigger] stopped_at(nb, v, n1);
        lemma_advance_twice(n0, 1 + a, v);
        assert(stopped_at(n0, 1 + a + v, n1));
    } else {
        lemma_advance_twice(n0, 1 + a, vc);
    }
}

/// The number of nodes a search visits when the clock never stops it.
#[verifier::opaque]
pub open spec fn search_nodes(
    z: ZobristTable,
    ws: Seq<Window>,
    c: Seq<Seq<Cell>>,
    p: Player,
    depth: u8,
    alpha: i32,
    beta: i32,
    hash: u64,
    t: Seq<Option<TableEntry>>,
) -> nat {
    search_value(z, ws, c, p, depth, alpha, beta, hash, t).2
}

/// The number of nodes the searches of the first `k` moves of `ms` visit.
#[verifier::opaque]
pub open spec fn moves_nodes(
    z: ZobristTable,
    ws: Seq<Window>,
    c: Seq<Seq<Cell>>,
    p: Player,
    depth: u8,
    hash: u64,
    t0: Seq<Option<TableEntry>>,
    alpha0: i32,
    beta0: i32,
    ms: Seq<(usize, usize)>,
    k: int,
) -> nat {
    search_moves(z, ws, c, p, depth, hash, t0, alpha0, beta0, ms, k).nodes
}

/// A search that ends at its own node visits only that node.
proof fn lemma_one_node(
    z: ZobristTable,
    ws: Seq<Window>,
    c: Seq<Seq<Cell>>,
    p: Player,
    depth: u8,
    alpha: i32,
    beta: i32,
    hash: u64,
    t: Seq<Option<TableEntry>>,
)
    ensures
        !board_ok(c) || game_over_of(c) || depth == 0 || table_answer(t, hash, depth, alpha, beta) is Some
            ==> search_nodes(z, ws, c, p, depth, alpha, beta, hash, t) == 1,
{
    reveal(search_nodes);
}

/// A child stopped at its `v`-th node stops its parent at the node that
/// follows the parent's own and the `a` nodes counted before the child.
proof fn lemma_stop_shift(n0: u64, a: nat, nb: u64, n1: u64, v: nat)
    requires
        nb == advance(n0, 1 + a),
        stopped_at(nb, v, n1),
    ensures
        stopped_at(n0, 1 + a + v, n1),
{
    reveal(stopped_at);
    lemma_advance_twice(n0, 1 + a, v);
}

/// A search visits at least one node.
proof fn lemma_search_visits(
    z: ZobristTable,
    ws: Seq<Window>,
    c: Seq<Seq<Cell>>,
    p: Player,
    depth: u8,
    alpha: i32,
    beta: i32,
    hash: u64,
    t: Seq<Option<TableEntry>>,
)
    ensures
        search_nodes(z, ws, c, p, depth, alpha, beta, hash, t) >= 1,
{
    reveal(search_nodes);
}

/// The moves searched so far visit no fewer nodes as more moves are searched.
proof fn lemma_nodes_grow(
    z: ZobristTable,
    ws: Seq<Window>,
    c: Seq<Seq<Cell>>,
    p: Player,
    depth: u8,
    hash: u64,
    t0: Seq<Option<TableEntry>>,
    alpha0: i32,
    beta0: i32,
    ms: Seq<(usize, usize)>,
    k: int,
    k2: int,
)
    requires
        depth > 0,
        0 <= k <= k2 <= ms.len(),
    ensures
        search_moves(z, ws, c, p, depth, hash, t0, alpha0, beta0, ms, k).nodes <= search_moves(
            z,
            ws,
            c,
            p,
            depth,
            hash,
            t0,
            alpha0,
            beta0,
            ms,
            k2,
        ).nodes,
    decreases k2 - k,
{
    if k2 > k {
        lemma_nodes_grow(z, ws, c, p, depth, hash, t0, alpha0, beta0, ms, k, k2 - 1);
    }
}

/// Searching the next move adds the nodes its search visits, which the
/// search through all the moves visits too.
proof fn lemma_next_move_nodes(
    z: ZobristTable,
    ws: Seq<Window>,
    c: Seq<Seq<Cell>>,
    p: Player,
    depth: u8,
    hash: u64,
    t0: Seq<Option<TableEntry>>,
    alpha0: i32,
    beta0: i32,
    ms: Seq<(usize, usize)>,
    k: int,
)
    requires
        depth > 0,
        0 <= k < ms.len(),
        !search_moves(z, ws, c, p, depth, hash, t0, alpha0, beta0, ms, k).pruned,
    ensures
        ({
            let prev = search_moves(z, ws, c, p, depth, hash, t0, alpha0, beta0, ms, k);
            let m = ms[k];
            let child = search_nodes(
                z,
                ws,
                with_cell(c, m.0 as int, m.1 as int, piece_of(p)),
                other(p),
                (depth - 1) as u8,
                prev.alpha,
                prev.beta,
                hash ^ z.cell_key(piece_of(p), m.0 as int, m.1 as int),
                prev.table,
            );
            &&& search_moves(z, ws, c, p, depth, hash, t0, alpha0, beta0, ms, k + 1).nodes == prev.nodes + child
            &&& prev.nodes + child <= moves_nodes(z, ws, c, p, depth, hash, t0, alpha0, beta0, ms, ms.len() as int)
        }),
{
    reveal(search_nodes);
    reveal(moves_nodes);
    lemma_nodes_grow(z, ws, c, p, depth, hash, t0, alpha0, beta0, ms, k + 1, ms.len() as int);
}

/// One level above the leaves, the searches of the first `k` moves visit at
/// most one node each.
proof fn lemma_depth_one_nodes(
    z: ZobristTable,
    ws: Seq<Window>,
    c: Seq<Seq<Cell>>,
    p: Player,
    hash: u64,
    t0: Seq<Option<TableEntry>>,
    alpha0: i32,
    beta0: i32,
    ms: Seq<(usize, usize)>,
    k: int,
)
    requires
        0 <= k <= ms.len(),
    ensures
        search_moves(z, ws, c, p, 1, hash, t0, alpha0, beta0, ms, k).nodes <= k,
    decreases k,
{
    if k > 0 {
        lemma_depth_one_nodes(z, ws, c, p, hash, t0, alpha0, beta0, ms, k - 1);
        let prev = search_moves(z, ws, c, p, 1, hash, t0, alpha0, beta0, ms, k - 1);
        if !prev.pruned {
            let m = ms[k - 1];
            let child = search_value(
                z,
                ws,
                with_cell(c, m.0 as int, m.1 as int, piece_of(p)),
                other(p),
                0,
                prev.alpha,
                prev.beta,
                hash ^ z.cell_key(piece_of(p), m.0 as int, m.1 as int),
                prev.table,
            );
            assert(child.2 == 1);
        }
    }
}

/// On a board of side at most five, a search at most one level deep visits
/// at most 26 nodes.
proof fn lemma_shallow_nodes(
    z: ZobristTable,
    ws: Seq<Window>,
    c: Seq<Seq<Cell>>,
    p: Player,
    depth: u8,
    alpha: i32,
    beta: i32,
    hash: u64,
    t: Seq<Option<TableEntry>>,
)
    requires
        depth <= 1,
        board_ok(c),
        c.len() <= MAX_SIDE,
    ensures
        search_nodes(z, ws, c, p, depth, alpha, beta, hash, t) <= 26,
{
    reveal(search_nodes);
    if !game_over_of(c) && depth == 1 && table_answer(t, hash, depth, alpha, beta) is None {
        let ms = node_moves(c, t, hash);
        lemma_depth_one_nodes(z, ws, c, p, hash, t, alpha, beta, ms, ms.len() as int);
        lemma_ordered_len(moves_of(c), remembered_move(t, hash), (c.len() / 2) as int, (2 * c.len()) as int);
        crate::board::lemma_moves_count(c);
        lemma_square_at_most_25(c.len() as int);
    }
}

/// A counter that stays below 1024 reads no clock.
proof fn lemma_small_count(n: u64, v: nat)
    requires
        n + v < 1024,
    ensures
        no_check_within(n, v),
{
    reveal(no_check_within);
    vstd::arithmetic::div_mod::lemma_small_mod(n as nat, 1024);
}

/// Where the search through the root moves stands.
#[verifier::ext_equal]
pub struct RootProgress {
    pub best: i32,
    pub best_move: (usize, usize),
    pub alpha: i32,
    pub beta: i32,
    pub table: Seq<Option<TableEntry>>,
}

/// The best move the table remembers for the root: only an entry for this very
/// hash counts.
pub open spec fn root_remembered(t: Seq<Option<TableEntry>>, hash: u64) -> Option<(u8, u8)> {
    match t[slot_of(hash, t.len() as int)] {
        Some(e) => if e.key == hash {
            Some(e.best_move)
        } else {
            None
        },
        None => None,
    }
}

/// The order in which the root moves are tried.
pub open spec fn root_order(c: Seq<Seq<Cell>>, t: Seq<Option<TableEntry>>, hash: u64) -> Seq<(usize, usize)> {
    ordered_moves(moves_of(c), root_remembered(t, hash), (c.len() / 2) as int, (2 * c.len()) as int)
}

/// The search through the first `k` root moves of `ms` at `depth`, each move
/// searched one level shallower with the window narrowed so far; the root
/// never prunes.
pub open spec fn root_search(
    z: ZobristTable,
    ws: Seq<Window>,
    c: Seq<Seq<Cell>>,
    p: Player,
    depth: u8,
    hash: u64,
    t0: Seq<Option<TableEntry>>,
    ms: Seq<(usize, usize)>,
    k: int,
) -> RootProgress
    decreases k,
{
    if k <= 0 || k > ms.len() {
        RootProgress { best: start_of(p), best_move: ms[0], alpha: i32::MIN, beta: i32::MAX, table: t0 }
    } else {
        let prev = root_search(z, ws, c, p, depth, hash, t0, ms, k - 1);
        let m = ms[k - 1];
        let child = search_value(
            z,
            ws,
            with_cell(c, m.0 as int, m.1 as int, piece_of(p)),
            other(p),
            (depth - 1) as u8,
            prev.alpha,
            prev.beta,
            hash ^ z.cell_key(piece_of(p), m.0 as int, m.1 as int),
            prev.table,
        );
        let better = match p {
            Player::X => child.0 > prev.best,
            Player::O => child.0 < prev.best,
        };
        let best = if better {
            child.0
        } else {
            prev.best
        };
        let best_move = if better {
            m
        } else {
            prev.best_move
        };
        let alpha = if p == Player::X && best > prev.alpha {
            best
        } else {
            prev.alpha
        };
        let beta = if p == Player::O && best < prev.beta {
            best
        } else {
            prev.beta
        };
        RootProgress { best, best_move, alpha, beta, table: child.1 }
    }
}

/// Where iterative deepening stands: the answer of the deepest finished
/// search, the table, and whether deepening has stopped.
#[verifier::ext_equal]
pub struct Deepening {
    pub best_move: (usize, usize),
    pub best_score: i32,
    pub table: Seq<Option<TableEntry>>,
    pub finished: bool,
}

/// Iterative deepening after finishing the searches to depths `1..=d`
/// (stopping early on a board with no move or once a search finds a forced
/// result), when the clock never stops a search.
pub open spec fn deepening(z: ZobristTable, ws: Seq<Window>, c: Seq<Seq<Cell>>, p: Player, hash: u64, d: nat) -> Deepening
    decreases d,
{
    if d == 0 {
        Deepening {
            best_move: (0, 0),
            best_score: 0,
            table: Seq::new(TABLE_SIZE as nat, |i: int| None::<TableEntry>),
            finished: false,
        }
    } else {
        let prev = deepening(z, ws, c, p, hash, (d - 1) as nat);
        if prev.finished {
            prev
        } else if moves_of(c).len() == 0 {
            Deepening { finished: true, ..prev }
        } else {
            let ms = root_order(c, prev.table, hash);
            let r = root_search(z, ws, c, p, d as u8, hash, prev.table, ms, ms.len() as int);
            Deepening {
                best_move: r.best_move,
                best_score: r.best,
                table: r.table,
                finished: abs(r.best as int) >= WIN_SCORE,
            }
        }
    }
}

/// The agent's answer from where deepening stands: with no answer yet, the
/// first free cell.
pub open spec fn final_answer(c: Seq<Seq<Cell>>, s: Deepening) -> (i32, usize, usize) {
    let m = if s.best_move == (0usize, 0usize) && moves_of(c).len() > 0 {
        moves_of(c)[0]
    } else {
        s.best_move
    };
    (s.best_score, m.0, m.1)
}

impl SolutionAgent {
    /// Alpha-beta search of the position to `depth` with `player` to move;
    /// positive favours X. A finished game scores its score times
    /// [`WIN_SCORE`]; at depth zero the heuristic estimates the position. A
    /// remembered result for the same hash, searched at least as deep, is
    /// answered from the table when it decides the window; otherwise the moves
    /// are searched, the remembered best move and central moves first, the
    /// window narrowing as they go and the search stopping once it closes, and
    /// the result is remembered. Every node adds one to `nodes_visited`
    /// (wrapping around), and only a node that brings it to a multiple of 1024
    /// reads the clock: once `time_limit_ms` milliseconds have passed since
    /// `start_time` that node sets `out_of_time`, and the search answers 0 all
    /// the way up, writing no further table entry ([`stopped_table`]). A search
    /// whose nodes bring the counter to no multiple of 1024 always finishes,
    /// having counted exactly the nodes it visited. The board is left as it
    /// was.
    pub fn alphabeta(
        board: &mut Board,
        player: Player,
        depth: u8,
        alpha: i32,
        beta: i32,
        windows: &Vec<Window>,
        zobrist: &ZobristTable,
        hash: u64,
        table: &mut Vec<Option<TableEntry>>,
        start_time: &Instant,
        time_limit_ms: u64,
        nodes_visited: &mut u64,
        out_of_time: &mut bool,
    ) -> (res: i32)
        requires
            old(board).wf(),
            old(board)@.len() <= MAX_SIDE,
            windows_fit(windows@, old(board)@.len() as int),
            windows@.len() <= MAX_WINDOWS,
            old(table)@.len() > 0,
            table_ok(old(table)@),
        ensures
            final(board)@ == old(board)@,
            final(table)@.len() == old(table)@.len(),
            table_ok(final(table)@),
            -search_bound() <= res <= search_bound(),
            *old(out_of_time) ==> *final(out_of_time),
            !*old(out_of_time) && *final(out_of_time) ==> res == 0,
            !*final(out_of_time) && game_over_of(old(board)@) ==> res == score_of(old(board)@) * WIN_SCORE,
            !*final(out_of_time) && !game_over_of(old(board)@) && depth == 0 ==> res == heuristic_value(
                old(board)@,
                windows@,
            ),
            !*final(out_of_time) && !game_over_of(old(board)@) && depth > 0 && table_answer(
                old(table)@,
                hash,
                depth,
                alpha,
                beta,
            ) is Some ==> res == table_answer(old(table)@, hash, depth, alpha, beta)->0,
            !*final(out_of_time) && !game_over_of(old(board)@) && depth > 0 && table_answer(
                old(table)@,
                hash,
                depth,
                alpha,
                beta,
            ) is None ==> remembers(final(table)@, hash, depth, res, stored_kind(player, res, alpha), old(board)@),
            !*final(out_of_time) ==> res == search_value(
                *zobrist,
                windows@,
                old(board)@,
                player,
                depth,
                alpha,
                beta,
                hash,
                old(table)@,
            ).0,
            !*final(out_of_time) ==> final(table)@ == search_value(
                *zobrist,
                windows@,
                old(board)@,
                player,
                depth,
                alpha,
                beta,
                hash,
                old(table)@,
            ).1,
            !*old(out_of_time) && !*final(out_of_time) ==> *final(nodes_visited) == advance(
                *old(nodes_visited),
                search_nodes(*zobrist, windows@, old(board)@, player, depth, alpha, beta, hash, old(table)@),
            ),
            !*old(out_of_time) && *final(out_of_time) ==> exists|v: nat|
                1 <= v <= search_nodes(*zobrist, windows@, old(board)@, player, depth, alpha, beta, hash, old(table)@)
                    && #[trigger] stopped_at(*old(nodes_visited), v, *final(nodes_visited)) && final(table)@
                    == stopped_table(*zobrist, windows@, old(board)@, player, depth, alpha, beta, hash, old(table)@, v),
            !*old(out_of_time) && no_check_within(
                *old(nodes_visited),
                search_nodes(*zobrist, windows@, old(board)@, player, depth, alpha, beta, hash, old(table)@),
            ) ==> !*final(out_of_time) && *final(nodes_visited) == *old(nodes_visited) + search_nodes(
                *zobrist,
                windows@,
                old(board)@,
                player,
                depth,
                alpha,
                beta,
                hash,
                old(table)@,
            ),
            game_over_of(old(board)@) || depth == 0 ==> final(table)@ == old(table)@,
            !*old(out_of_time) && (*old(nodes_visited) + 1) % 1024 != 0 && (game_over_of(old(board)@) || depth
                == 0) ==> !*final(out_of_time) && *final(nodes_visited) == *old(nodes_visited) + 1,
        decreases depth,
    {
        let ghost c = board@;
        let ghost n0 = *nodes_visited;
        let ghost out0 = *out_of_time;
        let ghost total = search_nodes(*zobrist, windows@, c, player, depth, alpha, beta, hash, table@);
        proof {
            lemma_search_visits(*zobrist, windows@, c, player, depth, alpha, beta, hash, table@);
            lemma_advance_one(n0);
        }
        // every 1024 nodes, check whether the time is up (the counter only
        // decides when to read the clock, so it wraps around rather than
        // overflowing)
        *nodes_visited = nodes_visited.wrapping_add(1);
        assert(*nodes_visited == advance(n0, 1));
        if *nodes_visited & 1023 == 0 && time_is_up(start_time, time_limit_ms) {
            *out_of_time = true;
            proof {
                let n1 = *nodes_visited;
                lemma_first_check(n0, n1);
                lemma_counter_settles(out0, n0, n1, total, true);
                assert(stopped_table(*zobrist, windows@, c, player, depth, alpha, beta, hash, table@, 1) == table@);
                lemma_one_node(*zobrist, windows@, c, player, depth, alpha, beta, hash, table@);
            }
            return 0;
        }
        proof {
            crate::board::lemma_score_bound(c);
            lemma_heuristic_bound(c, windows@);
            lemma_counter_settles(out0, n0, *nodes_visited, 1, false);
            lemma_one_node(*zobrist, windows@, c, player, depth, alpha, beta, hash, table@);
        }
        // a finished game scores its real score, weighted
        if board.game_over() {
            let s = board.score();
            assert((score_of(c) * WIN_SCORE) as i32 == s * WIN_SCORE);
            return s * WIN_SCORE;
        }
        // at the depth limit, estimate
        if depth == 0 {
            let h = Self::heuristic(board, windows);
            assert(heuristic_value(c, windows@) as i32 == h);
            return h;
        }
        // has this position been searched before?
        let table_index = (#[verifier::truncate] (hash as usize)) % table.len();
        let saved_best_move = match table[table_index] {
            Some(entry) => {
                if entry.key == hash && entry.depth >= depth {
                    match entry.kind {
                        EntryType::Exact => {
                            return entry.score;
                        },
                        EntryType::UpperBound => {
                            if entry.score <= alpha {
                                return entry.score;
                            }
                        },
                        EntryType::LowerBound => {
                            if entry.score >= beta {
                                return entry.score;
                            }
                        },
                    }
                }
                Some(entry.best_move)
            },
            None => None,
        };
        assert(table_answer(old(table)@, hash, depth, alpha, beta) is None);
        assert(saved_best_move == remembered_move(old(table)@, hash));
        let available = board.moves();
        if available.len() == 0 {
            return board.score() * WIN_SCORE;
        }
        // move ordering: the remembered best move first, then central moves
        let size = board.size();
        let center = size as i32 / 2;
        proof {
            lemma_moves_are_empty_cells(c);
            assert forall|t: int| 0 <= t < available@.len() implies (#[trigger] available@[t]).0 <= 100 && available@[t].1 <= 100 by {
                assert(is_empty_cell(c, moves_of(c)[t]));
            }
        }
        let available_moves = order_moves(&available, saved_best_move, center, 2 * size as i32);
        proof {
            lemma_ordered_members(available@, saved_best_move, center as int, 2 * size as int);
            assert(is_empty_cell(c, available@[0]));
            lemma_key_range(available@[0], saved_best_move, size as int);
            assert(available_moves@.contains(available@[0]));
            assert forall|t: int| 0 <= t < available_moves@.len() implies is_empty_cell(c, #[trigger] available_moves@[t]) by {
                assert(available_moves@.contains(available_moves@[t]));
                assert(available@.contains(available_moves@[t]));
                let q = choose|q: int| 0 <= q < available@.len() && available@[q] == available_moves@[t];
                assert(is_empty_cell(c, moves_of(c)[q]));
            }
        }
        let ghost alpha0 = alpha;
        let ghost beta0 = beta;
        let ghost t0 = table@;
        assert(available_moves@ == node_moves(c, t0, hash));
        let mut alpha_now = alpha;
        let mut beta_now = beta;
        let mut best_score: i32 = match player {
            Player::X => i32::MIN,
            Player::O => i32::MAX,
        };
        let mut best_move: (u8, u8) = (available_moves[0].0 as u8, available_moves[0].1 as u8);
        let mut idx: usize = 0;
        let mut pruned = false;
        let ghost mut acc: nat = 0;
        assert(total == 1 + moves_nodes(*zobrist, windows@, c, player, depth, hash, t0, alpha0, beta0, available_moves@, available_moves@.len() as int)) by {
            reveal(search_nodes);
            reveal(moves_nodes);
        }
        while idx < available_moves.len() && !pruned
            invariant
                board.wf(),
                board@ == c,
                c == old(board)@,
                c.len() <= MAX_SIDE,
                size == c.len(),
                !game_over_of(c),
                depth > 0,
                windows_fit(windows@, c.len() as int),
                windows@.len() <= MAX_WINDOWS,
                table@.len() == old(table)@.len(),
                old(table)@.len() > 0,
                table_ok(table@),
                idx <= available_moves@.len(),
                available_moves@.len() > 0,
                forall|t: int| 0 <= t < available_moves@.len() ==> is_empty_cell(c, #[trigger] available_moves@[t]),
                out0 == *old(out_of_time),
                n0 == *old(nodes_visited),
                *out_of_time == out0,
                idx > 0 ==> !*out_of_time,
                idx == 0 ==> !pruned,
                idx == 0 ==> best_score == (match player {
                    Player::X => i32::MIN,
                    Player::O => i32::MAX,
                }),
                idx > 0 ==> -search_bound() <= best_score <= search_bound(),
                is_empty_cell(c, (best_move.0 as usize, best_move.1 as usize)),
                player == Player::X ==> beta_now == beta0 && (idx > 0 ==> best_score <= alpha_now),
                player == Player::O ==> alpha_now == alpha0 && (idx > 0 ==> beta_now <= best_score),
                t0 == old(table)@,
                table_answer(t0, hash, depth, alpha0, beta0) is None,
                available_moves@ == node_moves(c, t0, hash),
                (SearchProgress { best: best_score, best_move, alpha: alpha_now, beta: beta_now, table: table@, pruned, nodes: acc })
                    == search_moves(*zobrist, windows@, c, player, depth, hash, t0, alpha0, beta0, available_moves@, idx as int),
                !out0 ==> *nodes_visited == advance(n0, 1 + acc),
                total == search_nodes(*zobrist, windows@, c, player, depth, alpha, beta, hash, t0),
                alpha0 == alpha && beta0 == beta,
                total == 1 + moves_nodes(*zobrist, windows@, c, player, depth, hash, t0, alpha0, beta0, available_moves@, available_moves@.len() as int),
            decreases available_moves@.len() - idx, if pruned { 0int } else { 1int },
        {
            let m = available_moves[idx];
            assert(is_empty_cell(c, available_moves@[idx as int]));
            let ghost prev = search_moves(*zobrist, windows@, c, player, depth, hash, t0, alpha0, beta0, available_moves@, idx as int);
            let new_hash = hash ^ zobrist.piece_key(player, m.0, m.1);
            board.apply_move(m, player);
            let ghost table_before = table@;
            let ghost nb = *nodes_visited;
            let ghost board_after = board@;
            let ghost child_nodes = search_nodes(*zobrist, windows@, board@, other(player), (depth - 1) as u8, alpha_now, beta_now, new_hash, table@);
            proof {
                lemma_next_move_nodes(*zobrist, windows@, c, player, depth, hash, t0, alpha0, beta0, available_moves@, idx as int);
                assert(table@ == prev.table && alpha_now == prev.alpha && beta_now == prev.beta && acc == prev.nodes);
                assert(1 + acc + child_nodes <= total);
            }
            let score = Self::alphabeta(
                board,
                player.flip(),
                depth - 1,
                alpha_now,
                beta_now,
                windows,
                zobrist,
                new_hash,
                table,
                start_time,
                time_limit_ms,
                nodes_visited,
                out_of_time,
            );
            board.undo_move(m, player);
            proof {
                crate::board::law_undo_restores(c, m, player);
                if !out0 {
                    lemma_count_child(n0, acc, nb, *nodes_visited, child_nodes, *out_of_time, total);
                }
            }
            if *out_of_time {
                proof {
                    lemma_counter_settles(out0, n0, *nodes_visited, total, true);
                    if !out0 {
                        let vc = choose|vc: nat|
                            1 <= vc <= child_nodes && #[trigger] stopped_at(nb, vc, *nodes_visited) && table@
                                == stopped_table(*zobrist, windows@, board_after, other(player), (depth - 1) as u8, alpha_now, beta_now, new_hash, table_before, vc);
                        lemma_stop_shift(n0, acc, nb, *nodes_visited, vc);
                        lemma_stopped_child(*zobrist, windows@, c, player, depth, alpha0, beta0, hash, t0, idx as int, vc);
                        assert(stopped_table(*zobrist, windows@, c, player, depth, alpha, beta, hash, t0, 1 + acc + vc) == table@);
                    }
                }
                return 0;
            } else {
                proof {
                    acc = acc + child_nodes;
                }
                match player {
                    Player::X => {
                        // X is maximizing
                        if score > best_score {
                            best_score = score;
                            best_move = (m.0 as u8, m.1 as u8);
                        }
                        if best_score > alpha_now {
                            alpha_now = best_score;
                        }
                    },
                    Player::O => {
                        // O is minimizing
                        if score < best_score {
                            best_score = score;
                            best_move = (m.0 as u8, m.1 as u8);
                        }
                        if best_score < beta_now {
                            beta_now = best_score;
                        }
                    },
                }
                // prune: the opponent would never allow this line
                if beta_now <= alpha_now {
                    pruned = true;
                }
                proof {
                    assert(table_before == prev.table);
                    assert(m == available_moves@[idx as int]);
                    assert((SearchProgress { best: best_score, best_move, alpha: alpha_now, beta: beta_now, table: table@, pruned, nodes: acc })
                        == search_moves(*zobrist, windows@, c, player, depth, hash, t0, alpha0, beta0, available_moves@, idx + 1));
                }
                idx = idx + 1;
            }
        }
        proof {
            if pruned {
                lemma_pruned_stays(*zobrist, windows@, c, player, depth, hash, t0, alpha0, beta0, available_moves@, idx as int, available_moves@.len() as int);
            }
        }
        // remember the result
        let entry_kind = if best_score <= alpha_now {
            EntryType::UpperBound
        } else if best_score >= beta_now {
            EntryType::LowerBound
        } else {
            EntryType::Exact
        };
        table.set(
            table_index,
            Some(TableEntry { key: hash, depth, score: best_score, kind: entry_kind, best_move: best_move }),
        );
        proof {
            assert(total == 1 + acc) by {
                reveal(moves_nodes);
            }
            lemma_counter_settles(out0, n0, *nodes_visited, total, *out_of_time);
        }
        best_score
    }

    /// One search of the root to `depth`: tries every move, the one the table
    /// remembers for this position first, then by distance to the centre, each
    /// searched one level shallower with the window narrowed so far. Answers
    /// the best score and move and whether the clock stopped the search; when it
    /// did not, they and the table are those of [`root_search`]. A search to
    /// depth 1 or 2 visits fewer than 1024 nodes, so it never reads the clock
    /// and always finishes. The board is left as it was.
    pub fn search_root(
        board: &mut Board,
        player: Player,
        depth: u8,
        windows: &Vec<Window>,
        zobrist: &ZobristTable,
        hash: u64,
        table: &mut Vec<Option<TableEntry>>,
        start_time: &Instant,
        time_limit_ms: u64,
    ) -> (res: (i32, (usize, usize), bool))
        requires
            old(board).wf(),
            old(board)@.len() <= MAX_SIDE,
            !game_over_of(old(board)@),
            depth >= 1,
            windows_fit(windows@, old(board)@.len() as int),
            windows@.len() <= MAX_WINDOWS,
            old(table)@.len() > 0,
            table_ok(old(table)@),
        ensures
            final(board)@ == old(board)@,
            final(table)@.len() == old(table)@.len(),
            table_ok(final(table)@),
            is_empty_cell(old(board)@, res.1),
            depth <= 2 ==> !res.2,
            !res.2 ==> -search_bound() <= res.0 <= search_bound(),
            !res.2 ==> ({
                let ms = root_order(old(board)@, old(table)@, hash);
                let r = root_search(*zobrist, windows@, old(board)@, player, depth, hash, old(table)@, ms, ms.len() as int);
                res.0 == r.best && res.1 == r.best_move && final(table)@ == r.table
            }),
    {
        let ghost c = board@;
        let ghost t0 = table@;
        let ghost ws = windows@;
        let mut out_of_time = false;
        let mut nodes_visited = 0u64;
        let size = board.size();
        let available = board.moves();
        proof {
            lemma_moves_are_empty_cells(c);
        }
        // order the root moves: the remembered best move first, then central moves
        let table_index = (#[verifier::truncate] (hash as usize)) % table.len();
        let saved_best_move = match table[table_index] {
            Some(entry) => if entry.key == hash {
                Some(entry.best_move)
            } else {
                None
            },
            None => None,
        };
        assert(saved_best_move == root_remembered(t0, hash));
        let center = size as i32 / 2;
        proof {
            assert forall|t: int| 0 <= t < available@.len() implies (#[trigger] available@[t]).0 <= 100 && available@[t].1 <= 100 by {
                assert(is_empty_cell(c, moves_of(c)[t]));
            }
        }
        let available_moves = order_moves(&available, saved_best_move, center, 2 * size as i32);
        let ghost ms = available_moves@;
        proof {
            lemma_ordered_members(available@, saved_best_move, center as int, 2 * size as int);
            assert(is_empty_cell(c, available@[0]));
            lemma_key_range(available@[0], saved_best_move, size as int);
            assert(available_moves@.contains(available@[0]));
            assert forall|t: int| 0 <= t < available_moves@.len() implies is_empty_cell(c, #[trigger] available_moves@[t]) by {
                assert(available_moves@.contains(available_moves@[t]));
                assert(available@.contains(available_moves@[t]));
                let q = choose|q: int| 0 <= q < available@.len() && available@[q] == available_moves@[t];
                assert(is_empty_cell(c, moves_of(c)[q]));
            }
            assert(ms == root_order(c, t0, hash));
            lemma_ordered_len(available@, saved_best_move, center as int, 2 * size as int);
            crate::board::lemma_moves_count(c);
            lemma_square_at_most_25(c.len() as int);
        }
        let mut best_score: i32 = match player {
            Player::X => i32::MIN,
            Player::O => i32::MAX,
        };
        let mut best_move = available_moves[0];
        let mut alpha = i32::MIN;
        let mut beta = i32::MAX;
        let mut idx: usize = 0;
        while idx < available_moves.len() && !out_of_time
            invariant
                board.wf(),
                board@ == c,
                c == old(board)@,
                c.len() <= MAX_SIDE,
                !game_over_of(c),
                depth >= 1,
                windows@ == ws,
                windows_fit(windows@, c.len() as int),
                windows@.len() <= MAX_WINDOWS,
                table@.len() == t0.len(),
                t0.len() > 0,
                table_ok(table@),
                idx <= available_moves@.len(),
                available_moves@ == ms,
                available_moves@.len() > 0,
                forall|t: int| 0 <= t < available_moves@.len() ==> is_empty_cell(c, #[trigger] available_moves@[t]),
                !out_of_time ==> (idx > 0 ==> -search_bound() <= best_score <= search_bound()),
                idx == 0 ==> best_score == start_of(player),
                is_empty_cell(c, best_move),
                !out_of_time ==> (RootProgress { best: best_score, best_move, alpha, beta, table: table@ })
                    == root_search(*zobrist, ws, c, player, depth, hash, t0, ms, idx as int),
                board_ok(c),
                ms.len() <= 25,
                depth <= 2 ==> !out_of_time && nodes_visited <= 26 * idx,
            decreases available_moves@.len() - idx, if out_of_time { 0int } else { 1int },
        {
            let m = available_moves[idx];
            assert(is_empty_cell(c, available_moves@[idx as int]));
            let new_hash = hash ^ zobrist.piece_key(player, m.0, m.1);
            board.apply_move(m, player);
            proof {
                if depth <= 2 {
                    crate::board::lemma_fill_removes_one_move(c, m, piece_of(player));
                    lemma_shallow_nodes(*zobrist, ws, board@, other(player), (depth - 1) as u8, alpha, beta, new_hash, table@);
                    lemma_small_count(
                        nodes_visited,
                        search_nodes(*zobrist, ws, board@, other(player), (depth - 1) as u8, alpha, beta, new_hash, table@),
                    );
                }
            }
            let score = Self::alphabeta(
                board,
                player.flip(),
                depth - 1,
                alpha,
                beta,
                windows,
                zobrist,
                new_hash,
                table,
                start_time,
                time_limit_ms,
                &mut nodes_visited,
                &mut out_of_time,
            );
            board.undo_move(m, player);
            proof {
                crate::board::law_undo_restores(c, m, player);
            }
            if !out_of_time {
                match player {
                    Player::X => {
                        if score > best_score {
                            best_score = score;
                            best_move = m;
                        }
                        if best_score > alpha {
                            alpha = best_score;
                        }
                    },
                    Player::O => {
                        if score < best_score {
                            best_score = score;
                            best_move = m;
                        }
                        if best_score < beta {
                            beta = best_score;
                        }
                    },
                }
                proof {
                    assert(m == ms[idx as int]);
                    assert((RootProgress { best: best_score, best_move, alpha, beta, table: table@ })
                        == root_search(*zobrist, ws, c, player, depth, hash, t0, ms, idx + 1));
                }
                idx = idx + 1;
            }
        }
        (best_score, best_move, out_of_time)
    }

    /// Chooses a move for `player` by iterative deepening: searches to depth
    /// 1, 2, ... up to the number of free cells, keeps the answer of the
    /// deepest search that finished within `time_limit_ms` milliseconds, and
    /// stops early once a search finds a forced result (a score of at least
    /// [`WIN_SCORE`] in magnitude). Answers `(score, row, col)`: the answer of
    /// deepening stopped after some number of finished depths (which number
    /// depends on the clock, but is at least 1 whenever a cell is free, and at
    /// least 2 unless only one cell is free or depth 1 finds a forced result,
    /// as those depths never read the clock), an empty cell of the board
    /// whenever one is left
    /// (the first free cell if no search finished), and `(0, 0, 0)` on a full
    /// board. The board is left as it was.
    pub fn solve(board: &mut Board, player: Player, time_limit_ms: u64) -> (res: (i32, usize, usize))
        requires
            old(board).wf(),
            old(board)@.len() <= MAX_SIDE,
        ensures
            final(board)@ == old(board)@,
            exists|z: ZobristTable, d: nat|
                z.drawn_from_seed() && d <= moves_of(old(board)@).len() && res == final_answer(
                    old(board)@,
                    #[trigger] deepening(z, windows_of(old(board)@), old(board)@, player, board_hash(z, old(board)@), d),
                ) && (!game_over_of(old(board)@) ==> d >= 1) && (d >= 2 || d == moves_of(old(board)@).len()
                    || deepening(z, windows_of(old(board)@), old(board)@, player, board_hash(z, old(board)@), 1).finished),
            game_over_of(old(board)@) ==> res == (0i32, 0usize, 0usize),
            !game_over_of(old(board)@) ==> is_empty_cell(old(board)@, (res.1, res.2)),
            -search_bound() <= res.0 <= search_bound(),
    {
        let ghost c = board@;
        // the clock starts now
        let start_time = clock_now();
        // precompute the windows and the hash of this position
        let windows = Self::find_all_windows(board);
        let zobrist = ZobristTable::new();
        let hash = zobrist.hash_board(board);
        let ghost ws = windows@;
        proof {
            lemma_windows_fit(c);
            lemma_moves_are_empty_cells(c);
            crate::board::lemma_moves_count(c);
            lemma_square_at_most_25(c.len() as int);
        }
        let mut table = empty_table(TABLE_SIZE);
        assert(table@ =~= Seq::new(TABLE_SIZE as nat, |i: int| None::<TableEntry>));
        // the best answer of the deepest finished search
        let mut best_move_found: (usize, usize) = (0, 0);
        let mut best_score_found: i32 = 0;
        // at most 25 free cells: the count fits in a byte
        let max_depth = #[verifier::truncate] (board.moves().len() as u8);
        assert(max_depth as int == moves_of(c).len());
        let mut current_depth: u16 = 1;
        let mut finished = false;
        let ghost mut done: nat = 0;
        while current_depth <= max_depth as u16 && !finished
            invariant
                board.wf(),
                board@ == c,
                c == old(board)@,
                c.len() <= MAX_SIDE,
                ws == windows@,
                windows@ == windows_of(c),
                windows_fit(windows@, c.len() as int),
                windows@.len() <= MAX_WINDOWS,
                zobrist.drawn_from_seed(),
                hash == board_hash(zobrist, c),
                max_depth as int == moves_of(c).len(),
                max_depth <= 25,
                table@.len() == TABLE_SIZE,
                table_ok(table@),
                1 <= current_depth <= 256,
                done <= max_depth,
                !finished ==> done == current_depth - 1,
                !finished ==> !deepening(zobrist, ws, c, player, hash, done).finished,
                !finished ==> table@ == deepening(zobrist, ws, c, player, hash, done).table,
                best_move_found == deepening(zobrist, ws, c, player, hash, done).best_move,
                best_score_found == deepening(zobrist, ws, c, player, hash, done).best_score,
                best_move_found == (0usize, 0usize) || is_empty_cell(c, best_move_found),
                game_over_of(c) ==> best_move_found == (0usize, 0usize) && best_score_found == 0,
                -search_bound() <= best_score_found <= search_bound(),
                done == current_depth - 1 || (finished && done + 2 == current_depth && done >= 2),
                finished && done == current_depth - 1 ==> deepening(zobrist, ws, c, player, hash, done).finished,
                finished ==> current_depth >= 2,
            decreases 257 - current_depth, if finished { 0int } else { 1int },
        {
            let ghost prev = deepening(zobrist, ws, c, player, hash, done);
            if board.game_over() {
                finished = true;
                proof {
                    done = done + 1;
                }
            } else {
                let (score, mv, out_of_time) = Self::search_root(
                    board,
                    player,
                    current_depth as u8,
                    &windows,
                    &zobrist,
                    hash,
                    &mut table,
                    &start_time,
                    time_limit_ms,
                );
                // keep the answer only if this depth finished in time
                if !out_of_time {
                    best_move_found = mv;
                    best_score_found = score;
                    // a forced win or loss: no need to search deeper
                    let magnitude = if best_score_found < 0 {
                        -best_score_found
                    } else {
                        best_score_found
                    };
                    if magnitude >= WIN_SCORE {
                        finished = true;
                    }
                    proof {
                        done = done + 1;
                    }
                } else {
                    finished = true;
                }
            }
            current_depth = current_depth + 1;
        }
        // safety net: with no answer yet, take the first free cell
        if best_move_found.0 == 0 && best_move_found.1 == 0 {
            let first_moves = board.moves();
            if first_moves.len() > 0 {
                best_move_found = first_moves[0];
            }
        }
        proof {
            if !game_over_of(c) {
                assert(is_empty_cell(c, moves_of(c)[0]));
            }
            let dd = deepening(zobrist, ws, c, player, hash, done);
            assert((best_score_found, best_move_found.0, best_move_found.1) == final_answer(c, dd));
            if !game_over_of(c) {
                assert(done >= 1);
            }
            if done < 2 && done != max_depth {
                assert(finished && done == 1);
                assert(deepening(zobrist, ws, c, player, hash, 1).finished);
            }
        }
        (best_score_found, best_move_found.0, best_move_found.1)
    }
}

/// A side of at most five leaves at most 25 cells.
proof fn lemma_square_at_most_25(n: int)
    requires
        0 <= n <= 5,
    ensures
        n * n <= 25,
{
    assert(n * n <= 25) by (nonlinear_arith)
        requires
            0 <= n <= 5,
    ;
}

} // verus!
