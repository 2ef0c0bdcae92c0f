# hive

The rules engine of the board game Hive, written in Verus and proved against
its contracts.

- `src/types.rs`: positions, pieces, players, moves and outcomes.
- `src/hex.rs`: the hexagonal grid in axial coordinates; neighbours and the
  cells flanking a gap.
- `src/board.rs`: the board, a map from cells to stacks of pieces, with
  placing, removing and moving a piece.
- `src/reach.rs`: walks, reachability and the search for the cells connected
  to a start cell.
- `src/rules.rs`: occupancy, contact with the hive, sliding through gaps,
  the one-hive rule and where new pieces may be placed.
- `src/moves.rs`: how the bee, ant, spider and beetle move, and the moves of
  the piece a player picks.
- `src/game.rs`: the game state, applying a move and detecting a trapped bee.
- `src/render.rs`: a text picture of the board.
- `src/laws.rs`: properties that relate several operations.
- `src/census.rs`: counting pieces on the board and in the hands, and the
  proof that moves neither create nor lose pieces.
- `app/`: the WebAssembly bindings that exchange game states and moves with
  JavaScript.
