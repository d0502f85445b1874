# poker_trainer

A trainer for game-theory-optimal no-limit hold'em, with its rules proved in
[Verus](https://github.com/verus-lang/verus).

`src/` is the library: cards, boards and suit isomorphisms, hand ranking and
dealing, the preflop game and its charts, solved postflop tables, the drills,
the range browser, hand histories and their analysis, and the text and record
formats around them. Every function states what it returns, and Verus checks
that it does. Numbers that came out of a solver are kept by their bits: the
library moves, compares and selects them, and never computes with them.

`app/` is the program: command line, files, terminal, random drills, the
preflop solver and everything that adds or multiplies floating-point numbers.
`app/main.rs` is its root. `app/solve_gen.rs`, which links a postflop solver,
and `app/web.rs`, the browser binding, are roots of programs of their own.

`tests/` runs the library on concrete hands.

| Module | What it holds |
| --- | --- |
| `bits`, `text`, `textmap`, `order`, `fnv` | numbers by their bits, text, maps keyed by text, sorting, hashing |
| `board`, `deck`, `eval`, `equity` | cards, dealing, ranking, equities of classes |
| `iso`, `texture`, `solve` | suit symmetry, board textures, which flops to solve |
| `game`, `preflop`, `generate`, `export` | the preflop game, its charts, walking and writing them |
| `range`, `corpus` | ranges as text and as bytes |
| `solution`, `postflop_table`, `tree`, `table` | solved spots, tables of a solved tree, walking and locking them |
| `ground`, `trainer`, `browse`, `serve` | spots from preflop lines, drills, the browser, the session protocol |
| `analyze`, `report`, `stats`, `web` | hand histories, reports over boards, statistics, the browser binding |
