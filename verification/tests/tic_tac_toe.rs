use coursework::alphabeta::{self, SolutionAgent as AlphaBetaAgent};
use coursework::search::{self, EntryType, WIN_SCORE};
use coursework::board::{Board, Cell, Player};
use coursework::clock::{limit_reached, time_is_up};
use std::time::Instant;
use coursework::minimax::SolutionAgent as MinimaxAgent;
use coursework::zobrist::ZobristTable;

fn board(rows: &[&str]) -> Board {
    let cells: Vec<Vec<Cell>> = rows
        .iter()
        .map(|r| {
            r.chars()
                .map(|c| match c {
                    'X' => Cell::X,
                    'O' => Cell::O,
                    '#' => Cell::Wall,
                    _ => Cell::Empty,
                })
                .collect()
        })
        .collect();
    Board::from_cells(cells).unwrap()
}

fn snapshot(b: &Board) -> Vec<Vec<Cell>> {
    b.get_cells().clone()
}

#[test]
fn moves_are_empty_cells_in_row_major_order() {
    let b = board(&["X._", "#O.", "..X"]);
    assert_eq!(b.moves(), vec![(0, 1), (0, 2), (1, 2), (2, 0), (2, 1)]);
    assert!(!b.game_over());
    assert_eq!(Board::new(2).moves(), vec![(0, 0), (0, 1), (1, 0), (1, 1)]);
}

#[test]
fn from_cells_wants_a_small_square() {
    assert!(Board::from_cells(vec![vec![Cell::Empty; 3], vec![Cell::Empty; 2]]).is_none());
    assert!(Board::from_cells(vec![vec![Cell::Empty; 17]; 17]).is_none());
    assert!(Board::from_cells(vec![vec![Cell::Empty; 16]; 16]).is_some());
    assert_eq!(Board::new(4).size(), 4);
}

#[test]
fn score_counts_lines_of_three() {
    assert_eq!(board(&["XXX", "OO.", "..."]).score(), 1);
    assert_eq!(board(&["XXX", "XOO", "XOO"]).score(), 2);
    assert_eq!(board(&["XXX", "OOO", "X.."]).score(), 0);
    assert_eq!(board(&["XXXX", "....", "....", "...."]).score(), 2);
    assert_eq!(board(&["O..", ".O.", "..O"]).score(), -1);
    assert_eq!(board(&["..O", ".O.", "O.."]).score(), -1);
    assert_eq!(board(&["X#X", "...", "..."]).score(), 0);
}

#[test]
fn game_is_over_when_no_cell_is_empty() {
    assert!(board(&["XO#", "OX#", "##O"]).game_over());
    assert!(!board(&["XO#", "OX#", "##."]).game_over());
}

#[test]
fn undo_restores_the_board() {
    let mut b = board(&["X..", ".O.", "..."]);
    let before = snapshot(&b);
    b.apply_move((2, 1), Player::X);
    assert_eq!(b.cell(2, 1), Cell::X);
    b.undo_move((2, 1), Player::X);
    assert_eq!(snapshot(&b), before);
    assert_eq!(Player::X.flip(), Player::O);
    assert_eq!(Player::O.piece(), Cell::O);
}

#[test]
fn minimax_plays_the_only_move() {
    let mut b = board(&["XOX", "XOO", "OX."]);
    assert_eq!(MinimaxAgent::solve(&mut b, Player::X, 0), (0, 2, 2));
    let mut b = board(&["XX.", "OOX", "OXO"]);
    assert_eq!(MinimaxAgent::solve(&mut b, Player::X, 0), (1, 0, 2));
}

#[test]
fn minimax_prefers_the_better_line_for_x() {
    let mut b = board(&[".XX", "OO.", "XOX"]);
    let before = snapshot(&b);
    assert_eq!(MinimaxAgent::solve(&mut b, Player::X, 0), (1, 1, 2));
    assert_eq!(snapshot(&b), before);
}

#[test]
fn minimax_minimises_for_o() {
    let mut b = board(&[".XX", "OO.", "XOX"]);
    assert_eq!(MinimaxAgent::solve(&mut b, Player::O, 0), (0, 1, 2));
}

#[test]
fn minimax_on_a_finished_game_reports_its_score() {
    let mut b = board(&["XXX", "OOX", "OXO"]);
    assert_eq!(MinimaxAgent::solve(&mut b, Player::O, 0), (1, 0, 0));
}

#[test]
fn minimax_on_an_empty_board_is_a_draw() {
    let mut b = Board::new(3);
    let (score, row, col) = MinimaxAgent::solve(&mut b, Player::X, 0);
    assert_eq!(score, 0);
    assert!(row < 3 && col < 3);
    assert_eq!(snapshot(&b), snapshot(&Board::new(3)));
}

#[test]
fn windows_of_a_board() {
    assert_eq!(AlphaBetaAgent::find_all_windows(&Board::new(5)).len(), 48);
    assert_eq!(AlphaBetaAgent::find_all_windows(&Board::new(3)).len(), 8);
    assert_eq!(AlphaBetaAgent::find_all_windows(&board(&["...", ".#.", "..."])).len(), 4);
    let w = AlphaBetaAgent::find_all_windows(&Board::new(3));
    assert_eq!(w[0], [(0, 0), (0, 1), (0, 2)]);
    assert_eq!(w[1], [(0, 0), (1, 0), (2, 0)]);
    assert_eq!(w[2], [(0, 0), (1, 1), (2, 2)]);
    assert_eq!(w[3], [(0, 1), (1, 1), (2, 1)]);
    assert_eq!(w[5], [(0, 2), (1, 1), (2, 0)]);
}

#[test]
fn heuristic_values() {
    let empty = Board::new(5);
    let w = AlphaBetaAgent::find_all_windows(&empty);
    assert_eq!(AlphaBetaAgent::heuristic(&empty, &w), 0);
    let center = board(&[".....", ".....", "..X..", ".....", "....."]);
    assert_eq!(AlphaBetaAgent::heuristic(&center, &w), 12 * 5 + 5);
    let corner = board(&["O....", ".....", ".....", ".....", "....."]);
    assert_eq!(AlphaBetaAgent::heuristic(&corner, &w), -3 * 5 - 1);
    let line = board(&["XXX..", "O....", ".....", ".....", "....."]);
    let h = AlphaBetaAgent::heuristic(&line, &w);
    // X windows: row 0 (3 windows: 1000, 50, 5), column 1 (5), column 2 (5),
    // diagonals from (0,1) and (0,2) down-right (5, 5), from (0,1)... down-left
    // blocked by nothing: (0,2) down-left (5); shared windows with O score 0.
    assert!(h > 1000);
}

#[test]
fn moves_are_ordered_by_memory_then_distance() {
    let ms = vec![(0, 0), (0, 1), (1, 1), (2, 2)];
    assert_eq!(alphabeta::order_moves(&ms, Some((0, 1)), 1, 6), vec![(0, 1), (1, 1), (0, 0), (2, 2)]);
    assert_eq!(alphabeta::order_moves(&ms, None, 1, 6), vec![(1, 1), (0, 1), (0, 0), (2, 2)]);
}

#[test]
fn zobrist_keys_come_from_the_generator() {
    let z = ZobristTable::new();
    let first = 0x123456789ABCDEF0u64.wrapping_mul(2862933555777941757).wrapping_add(3037000493);
    let second = first.wrapping_mul(2862933555777941757).wrapping_add(3037000493);
    assert_eq!(z.piece_key(Player::X, 0, 0), first);
    assert_eq!(z.piece_key(Player::O, 0, 0), second);
    assert_ne!(z.piece_key(Player::X, 1, 2), z.piece_key(Player::O, 1, 2));
}

#[test]
fn zobrist_hash_follows_moves() {
    let z = ZobristTable::new();
    let mut b = Board::new(5);
    assert_eq!(z.hash_board(&b), 0);
    let h0 = z.hash_board(&board(&["#....", ".....", "..O..", ".....", "....."]));
    let mut c = board(&["#....", ".....", "..O..", ".....", "....."]);
    c.apply_move((3, 4), Player::X);
    assert_eq!(z.hash_board(&c), h0 ^ z.piece_key(Player::X, 3, 4));
    b.apply_move((1, 2), Player::X);
    assert_eq!(z.hash_board(&b), z.piece_key(Player::X, 1, 2));
}

#[test]
fn alphabeta_leaves() {
    let z = ZobristTable::new();
    let mut table = search::empty_table(64);
    let start = Instant::now();
    let mut nodes = 0u64;
    let mut out = false;
    let mut done = board(&["XXX", "OOX", "OXO"]);
    let w = AlphaBetaAgent::find_all_windows(&done);
    let r = AlphaBetaAgent::alphabeta(
        &mut done, Player::O, 3, i32::MIN, i32::MAX, &w, &z, 0, &mut table, &start, 60_000, &mut nodes, &mut out,
    );
    assert_eq!(r, WIN_SCORE);
    let mut open = board(&["X..", "...", "..."]);
    let w = AlphaBetaAgent::find_all_windows(&open);
    let h = AlphaBetaAgent::heuristic(&open, &w);
    let r = AlphaBetaAgent::alphabeta(
        &mut open, Player::O, 0, i32::MIN, i32::MAX, &w, &z, 0, &mut table, &start, 60_000, &mut nodes, &mut out,
    );
    assert_eq!(r, h);
    assert!(!out);
    assert_eq!(nodes, 2);
}

#[test]
fn alphabeta_remembers_its_result() {
    let z = ZobristTable::new();
    let mut table = search::empty_table(64);
    let start = Instant::now();
    let mut nodes = 0u64;
    let mut out = false;
    let mut b = board(&[".XX", "OO.", "XOX"]);
    let before = snapshot(&b);
    let hash = z.hash_board(&b);
    let w = AlphaBetaAgent::find_all_windows(&b);
    let r = AlphaBetaAgent::alphabeta(
        &mut b, Player::O, 2, i32::MIN, i32::MAX, &w, &z, hash, &mut table, &start, 60_000, &mut nodes, &mut out,
    );
    assert_eq!(snapshot(&b), before);
    assert_eq!(r, 0);
    let e = table[(hash as usize) % 64].unwrap();
    assert_eq!(e.key, hash);
    assert_eq!(e.depth, 2);
    assert_eq!(e.score, 0);
    assert_eq!(e.kind, EntryType::LowerBound);
    assert_eq!(e.best_move, (1, 2));
}

#[test]
fn alphabeta_agent_finds_the_forced_win() {
    let mut b = board(&[".XX", "OO.", "XOX"]);
    let before = snapshot(&b);
    assert_eq!(AlphaBetaAgent::solve(&mut b, Player::X, 10_000), (WIN_SCORE, 1, 2));
    assert_eq!(snapshot(&b), before);
}

#[test]
fn alphabeta_agent_on_a_full_board() {
    let mut b = board(&["XXX", "OOX", "OXO"]);
    assert_eq!(AlphaBetaAgent::solve(&mut b, Player::X, 10_000), (0, 0, 0));
}

#[test]
fn alphabeta_agent_answers_a_free_cell_in_time() {
    let mut b = board(&["X....", ".#...", "..O..", ".....", "....#"]);
    let before = snapshot(&b);
    let (_, row, col) = AlphaBetaAgent::solve(&mut b, Player::X, 200);
    assert_eq!(b.cell(row, col), Cell::Empty);
    assert_eq!(snapshot(&b), before);
}

#[test]
fn clock_time_is_up() {
    let start = Instant::now();
    assert!(time_is_up(&start, 0));
    assert!(!time_is_up(&start, u64::MAX));
}

#[test]
fn root_search_reports_best_move_and_score() {
    let z = ZobristTable::new();
    let mut b = board(&[".XX", "OO.", "XOX"]);
    let before = snapshot(&b);
    let hash = z.hash_board(&b);
    let w = AlphaBetaAgent::find_all_windows(&b);
    let mut table = search::empty_table(search::TABLE_SIZE);
    let start = Instant::now();
    let (score, mv, out) = AlphaBetaAgent::search_root(&mut b, Player::X, 2, &w, &z, hash, &mut table, &start, 60_000);
    assert_eq!((score, mv, out), (WIN_SCORE, (1, 2), false));
    assert_eq!(snapshot(&b), before);
}

#[test]
fn limits_are_reached_at_or_past_them() {
    assert!(limit_reached(5, 5));
    assert!(limit_reached(6, 5));
    assert!(!limit_reached(4, 5));
    assert!(limit_reached(0, 0));
}

#[test]
fn added_walls_only_remove_windows() {
    let b1 = board(&["X...", ".O..", "....", "...."]);
    let b2 = board(&["O.#.", "....", ".#X.", "...."]);
    let w1 = AlphaBetaAgent::find_all_windows(&b1);
    let w2 = AlphaBetaAgent::find_all_windows(&b2);
    let kept: Vec<[(usize, usize); 3]> =
        w1.iter().filter(|w| w.iter().all(|&(r, c)| b2.cell(r, c) != Cell::Wall)).cloned().collect();
    assert_eq!(w2, kept);
    assert!(w2.len() < w1.len());
}

#[test]
fn swapping_x_and_o_negates_the_heuristic() {
    let b = board(&["XX..", ".O#.", "..O.", "X..."]);
    let swapped = board(&["OO..", ".X#.", "..X.", "O..."]);
    let w = AlphaBetaAgent::find_all_windows(&b);
    let h = AlphaBetaAgent::heuristic(&b, &w);
    assert_ne!(h, 0);
    assert_eq!(AlphaBetaAgent::heuristic(&swapped, &w), -h);
    let empty = board(&["....", ".#..", "....", "...."]);
    let we = AlphaBetaAgent::find_all_windows(&empty);
    assert_eq!(AlphaBetaAgent::heuristic(&empty, &we), 0);
}

#[test]
fn clock_is_read_only_at_every_1024th_node() {
    let z = ZobristTable::new();
    let mut table = search::empty_table(64);
    let start = Instant::now();
    let mut open = board(&["X..", "...", "..."]);
    let w = AlphaBetaAgent::find_all_windows(&open);
    let h = AlphaBetaAgent::heuristic(&open, &w);
    // a limit of zero is reached at once, yet no clock reading happens here
    let mut nodes = 5u64;
    let mut out = false;
    let r = AlphaBetaAgent::alphabeta(
        &mut open, Player::O, 0, i32::MIN, i32::MAX, &w, &z, 0, &mut table, &start, 0, &mut nodes, &mut out,
    );
    assert_eq!((r, nodes, out), (h, 6, false));
    // the 1024th node reads the clock and stops
    let mut nodes = 1023u64;
    let mut out = false;
    let r = AlphaBetaAgent::alphabeta(
        &mut open, Player::O, 0, i32::MIN, i32::MAX, &w, &z, 0, &mut table, &start, 0, &mut nodes, &mut out,
    );
    assert_eq!((r, nodes, out), (0, 1024, true));
    // the counter wraps around rather than overflowing
    let mut nodes = u64::MAX;
    let mut out = false;
    AlphaBetaAgent::alphabeta(
        &mut open, Player::O, 0, i32::MIN, i32::MAX, &w, &z, 0, &mut table, &start, 0, &mut nodes, &mut out,
    );
    assert_eq!((nodes, out), (0, true));
}

#[test]
fn shallow_root_searches_never_run_out_of_time() {
    let z = ZobristTable::new();
    let mut b = board(&[".....", ".....", "..X..", ".....", "....."]);
    let hash = z.hash_board(&b);
    let w = AlphaBetaAgent::find_all_windows(&b);
    let start = Instant::now();
    for depth in 1..=2u8 {
        let mut table = search::empty_table(search::TABLE_SIZE);
        let (_, mv, out) = AlphaBetaAgent::search_root(&mut b, Player::O, depth, &w, &z, hash, &mut table, &start, 0);
        assert!(!out);
        assert_eq!(b.cell(mv.0, mv.1), Cell::Empty);
    }
    // with no time at all, deepening still answers from a finished search
    let mut table = search::empty_table(search::TABLE_SIZE);
    let (score, mv, _) = AlphaBetaAgent::search_root(&mut b, Player::O, 2, &w, &z, hash, &mut table, &start, 0);
    let (s, row, col) = AlphaBetaAgent::solve(&mut b, Player::O, 0);
    assert_eq!(b.cell(row, col), Cell::Empty);
    assert!(s.abs() < WIN_SCORE || (s, (row, col)) == (score, mv));
}

#[test]
fn a_search_stopped_by_the_clock_writes_no_entry_after_it() {
    let z = ZobristTable::new();
    let start = Instant::now();
    let mut b = board(&["X..", ".O.", "..."]);
    let hash = z.hash_board(&b);
    let w = AlphaBetaAgent::find_all_windows(&b);
    // the first child's node is the 1024th: the clock stops the search there
    let mut table = search::empty_table(64);
    let mut nodes = 1022u64;
    let mut out = false;
    let r = AlphaBetaAgent::alphabeta(
        &mut b, Player::X, 1, i32::MIN, i32::MAX, &w, &z, hash, &mut table, &start, 0, &mut nodes, &mut out,
    );
    assert_eq!((r, nodes, out), (0, 1024, true));
    assert!(table.iter().all(|e| e.is_none()));
    // far from a multiple of 1024 the same search finishes and is remembered
    let mut nodes = 0u64;
    let mut out = false;
    AlphaBetaAgent::alphabeta(
        &mut b, Player::X, 1, i32::MIN, i32::MAX, &w, &z, hash, &mut table, &start, 0, &mut nodes, &mut out,
    );
    assert!(!out);
    assert_eq!(nodes, 1 + b.moves().len() as u64);
    assert_eq!(table[(hash as usize) % 64].unwrap().key, hash);
}
