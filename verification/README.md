# tzolkin

An engine for a four-player worker-placement game on five turning gears: its
positions and moves, the searches that play it, the records those searches leave
to learn from, and the shape of the network that learns.

Everything in `src/` is verified with Verus. `app/` is what stands around it:
files, threads, the clock, and everything that computes with fractions.

## Layout

* The game: `ids`, `state`, `effect`, `book`, `research`, `options`, `spaces`,
  `moves`, `legal`, `affordable`, `playable`, `distinct`, `turns`, `sampling`,
  `movetext`, `pricing`. What the game is, which moves there are, and that every
  generated move can be played, is legal, and is found once.
* Pruning: `dominance`, `order`, `seen`, `positions`. Which choices are dropped,
  and that nothing worth having is.
* Searching: `search` (alpha-beta), `arena`, `descent`, `turnlines` and
  `nodekey` (tree search), `phase`, `mcts`, `minimax`, `specs`, `agents`, `flow`.
* Planning: `plan`, `commitment`, `steering`. The calendar, the lines a game can commit to,
  and the weights of an evaluation over time.
* Recording: `codec`, `record`, `schema`, `dates`, `shards`. What is written
  reads back.
* The network: `net`, `forward`, `checkpoint`, `bundle`, `json`, `queue`.
* Text and lists: `text`, `words`, `fields`, `lists`, `report`.

Numbers that are fractions in a file or in a setting are held as the bits they
are stored in; only `app/` computes with them. The weights of a schedule are whole
hundredths, which is how its tables are printed and pasted in. Shares and progress
are fractions of whole numbers, so that comparing them is exact.

The outside crates are used behind small functions whose contracts are believed:
`smallvec` for short lists, `rustc-hash` for tables keyed by words, `rand` for
draws, `serde_json` for headers. Each says above it what it claims.
