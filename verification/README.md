# tapa_core

A Tapa puzzle engine whose logic is proved with Verus: the rules, a
propagating solver that counts solutions, a generator that only hands out
puzzles with exactly one solution, and the playing engine behind a small
text command language.

Fill every cell black or white so that each clue lists the black runs around
its cell, all black cells form one orthogonally connected group, and no 2x2
block is all black.

## Layout

* `src/` - the verified library (`grid`, `model`, `rules`, `region`,
  `maskset`, `solver`, `propagation`, `search`, `generator`, `rng`, `engine`,
  `command`, `report`, `text`, `layout`, `clock`, `config`).
* `tests/` - tests of the library on concrete boards.
* `app/` - the command line program: reads settings from a file or flags,
  prints or times generated puzzles, or runs the engine over standard input
  and output, one command per line and one JSON reply per command.

The settings hold decimal fractions (the density range), so they are read in
`app/` and handed to the library as a plain integer configuration.
