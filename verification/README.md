# chess

A draughts (checkers) engine on an 8x8 board, verified with Verus.

- `src/field.rs`: the board (`Field`, two armies of twelve `Checker`s), its
  plain-value model `Position`, the cell cache, drawing the board as text and
  reading it back.
- `src/solve.rs`: move generation (plain moves, capture sequences for men and
  kings) and the evaluation of a position (`capacity`).
- `src/ai.rs`: the legal moves of a side (capturing is mandatory), the
  depth-limited search and the choice of a best move.
- `src/ui.rs`: playing a move on the board, the pieces a player may pick, and
  one line of keyboard input while picking or moving a piece.
- `src/laws.rs`: properties that relate these functions.
- `src/reading.rs`: reading the text of a board gives a board with the same cells.
- `src/symmetry.rs`: the score seen from the other side of the board.
- `app/main.rs`: the program: reads a position from standard input and prints
  the engine's move; also the interactive game loop.

The tests under `tests/` run the library on concrete boards.
