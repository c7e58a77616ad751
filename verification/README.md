# tron_coding_challenge

A two-player light-cycle game on a 21 by 21 field, the engine that plays it,
and a collection of computer players, written in Verus.

- `src/engine`: positions, directions, cells, the field and the rules of a
  frame (`Grid::next_grid`), the history of a game (`GameState`) and the
  engine that asks two bots for moves until the game ends (a bot that
  panics gives no move; `app/` catches the panic). The contracts
  state the rules exactly; laws state that a finished game stays finished,
  that every frame uses up two empty cells (so a game always ends), and
  that turning left undoes turning right.
- `src/players`: the bots. Searches (A*, breadth-first distances, flood
  fill, region checks, alpha-beta search) are proved against specifications
  of walks and shortest distances; alpha-beta search is proved to agree with
  plain minimax inside its window, and a search too short to reach a 256th
  node is proved never to be stopped. The articulation-point search is
  proved to mark exactly the cells whose removal disconnects two other open
  cells; the steps that `RipAndTear` and `CutEmOffer` take towards a
  cut-off cell, and that `Hallucinator` takes towards its fruit, are proved
  to be first steps of shortest walks.
- `src/rand.rs`: a permuted congruential generator, proved to compute the
  PCG output function.
- `src/clock.rs`: reading the clock, for bots that search until their time
  is up.
- `app/`: the program (printing games, sampling, a competition) and the
  learning bot, whose network works in floating point.
