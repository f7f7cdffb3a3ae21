# ultimate_tic_tac_toe

An ultimate tic-tac-toe engine. The game logic is a verified library:

- `src/ai.rs`: the bitboard position (`State`), move generation, moves,
  results, the text picture of a position, and the laws that tie them
  together (legal moves keep a position well formed; the offered moves are
  exactly the legal ones; a game that is not over has a move; a result exists
  exactly when the game is over).
- `src/zobrist.rs`: Zobrist keys and the proof that the incremental hash of a
  move equals the hash computed from scratch.
- `src/board.rs`, `src/game.rs`: the two boards of the browser front ends,
  the conversion of a board into a `State`, and the proof that this
  conversion commutes with playing a move.
- `src/dataset.rs`: the binary dataset of evaluated positions, with the proofs
  that reading written records gives each field back (the sub-boards judged
  from the cells, the hash 0, the side to move from the depth), and that
  writing back what was read gives the same bytes.
- `src/bench.rs`, `src/strategy_random.rs`, `src/strategy_mcts.rs`,
  `src/rng.rs`: match refereeing, the text form of positions, random play and
  Monte Carlo playouts.
- `src/bits.rs`: bit-vector facts the rest relies on.

`app/` holds what is not verified: the referee bot (`main`), the bench tool's
file access, the wasm front end, and the floating-point parts (the score table,
the position evaluation and the alpha-beta, NegaScout and tree searches).
