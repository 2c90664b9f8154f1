# ninemensmorris

A Nine Men's Morris engine core — bitboard positions, full rule
enforcement, Zobrist hashing, and a negamax/alpha-beta search with
quiescence and a transposition table — whose behaviour is stated in
contracts and proved with Verus.

## Layout

| Path | Holds |
|---|---|
| `src/types.rs` | `Color`, `Phase`, `GameResult`, `Square`, `Captures`, `Move` |
| `src/board.rs` | bitboard helpers, the board's lines and mills, bit-counting facts |
| `src/position.rs` | `CurrentGameState`, its plain-value view `StateView` and invariants, `from_bitboards` |
| `src/moves.rs` | `make_move`: the position after a move, and what it keeps |
| `src/rules.rs` | phases, mills, captures, move generation, terminal/result; the rules as spec functions and the proofs that generation is sound and complete |
| `src/zobrist.rs` | splitmix64 key tables and the position hash |
| `src/search.rs`, `src/search/` | evaluation, move ordering, transposition table, quiescence, negamax, iterative deepening |
| `src/session.rs` | one live game behind a plain-number interface (the logic of the browser adapter) |
| `app/` | the `wasm-bindgen` adapter around `session` and a self-play demo |
| `tests/` | the test suites |

## Position invariants

`CurrentGameState`'s fields are private. `StateView::wf` states the
invariants: the two colours never share a point, only points 0..23 are
used, and each side's hand plus on-board pieces never exceed nine.
`from_bitboards` returns an error exactly when an invariant fails, and
`make_move` keeps them.

## Search

`search/negamax.rs` states the search itself as spec functions:
`q_search` for quiescence and `ab`/`ab_scan` for the alpha-beta loop with
its table probes, cutoffs, move ordering and stores. `negamax` returns
exactly the score `ab` gives and leaves the table with exactly the slots
`ab` gives. `search.rs` builds iterative deepening on top (`root_scan`,
`root_pass`, `deepening`), so `search` and `search_with_randomization`
are pinned to the same root scores, `search_scores`, at every depth.
Below the root's children every score is strictly inside
`±(WIN_SCORE - 1)`, so a root move scores `WIN_SCORE - 1` exactly when it
ends the game at once. The Zobrist key tables are built once per search
and handed down to every node.

## Verifying

`verus --crate-type lib src/lib.rs` checks every contract and lemma.
