# coursework

An analytics engine over tabular datasets, tic-tac-toe search agents and the
decision logic of a caching chatbot, written and verified in Verus.

`src/` (the library, every function verified):

- `dataset`, `query`, `analytics` — tabular datasets with named, typed columns;
  queries that filter rows by a condition, group them by a column (groups in
  order of first occurrence) and count, sum or average a column per group.
- `board` — a square tic-tac-toe board that may hold walls; moves, the score
  (lines of three owned by X minus those owned by O) and the end of a game.
- `minimax` — an exhaustive minimax agent, proved to answer the minimax value
  and an optimal move.
- `zobrist`, `alphabeta`, `search`, `clock` — an alpha-beta agent: the
  windows of a board, the window heuristic and move ordering (`alphabeta`);
  the transposition table keyed by Zobrist hashes, alpha-beta search with a
  node counter that decides when the clock is read, and iterative deepening
  under a time budget (`search`).
- `session_cache`, `chatbot` — the decisions of the chatbots: session file
  names, replies, the visible history of a session, and a two-entry
  least-recently-used cache of chat sessions kept in an `lru::LruCache`.

`app/` holds what the library leaves out: the chatbots that talk to a Llama
model through `kalosm` and read and write session files, the agents' entry
points (the time budget is computed in floating point there), and a small
grade look-up program.
