# beluga_core

The rules and evaluation of the Beluga chess engine as a verified library:
positions and moves, legal move generation, FEN reading and writing, the
static evaluation, the NNUE accumulator, time management, and the lines of the
UCI protocol. Every function states its behaviour in a contract that Verus
proves; `app/` holds the program around it (standard input and output, files,
the WebAssembly bindings and the tuning harness).

Layout of `src/`:

- `types`, `bitboard`, `attacks`, `lines`: squares, pieces, square sets and the
  geometry of attacks and board lines.
- `chess_move`, `zobrist`, `position`, `fen`, `fen_law`: moves, hashing, the
  position with make/unmake, FEN text and the proof that written FEN reads back.
- `movegen`, `legal`, `perft`, `game`, `session`: move generation and the proof
  that every generated move leaves the mover's king safe, move-path counting,
  game results and a game session for front ends.
- `eval`, `nnue`, `texel`: evaluation terms, the network and the tuning records.
- `timeman`, `search`, `tt`, `see`, `stop`: clock budgets, the iterative-deepening
  alpha-beta search with its move-ordering tables, the transposition table, static
  exchange evaluation and the stop flag.
- `uci`, `text`: the UCI lines and text helpers.
