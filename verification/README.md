# lib — a verified chess engine core

A bitboard chess engine whose logic is proved with Verus.

- `src/` is the verified library:
  - `attacks`, `magic_bitboard`, `bitboard`, `tables`, `zobrist`: attack tables,
    magic lookups, rays and hash keys, each table with its specification;
  - `board`, `mv`, `fen`, `notation`: positions, moves, FEN and coordinate
    notation; `make_move`/`unmake_move` are proved against a position model
    (`make_position`, `lemma_unmake_inverts_make`);
  - `movegen`, `movepick`: the pseudo-legal moves of a board, exactly, and the
    order in which the search looks at them;
  - `evaluate`, `params`: tapered material and piece-square evaluation, with
    its colour symmetry (`lemma_eval_mirror`);
  - `search`: quiescence and alpha-beta search, proved to give fail-soft bounds
    on the quiescence and negamax values, iterative deepening and a random
    legal move;
  - `transposition`: the transposition table and its replacement rule;
  - `uci`: the command handling of a UCI engine, as plain values.
- `tests/` runs the library on concrete positions.
- `app/` holds the program: it prints the starting board, and the UCI loop
  that reads commands and prints the library's replies.
