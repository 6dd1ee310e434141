# High-Frequency Chess

Chess with a fixed compute budget per move, metered in CPU core cycles: the rules, three
engines and the referee, written in Rust and verified with Verus.

- `src/` is the library, verified but for a few wrappers around `libc` and std whose contracts
  are trusted.
  - The rules: `position` is the mathematical position and what a move makes of it, `board`,
    `makemove`, `movegen` and `legality` carry it out on bitboards, `game` decides how a game
    stands, and `repetition` shows why history may be forgotten.
  - Notation: `fen`, `fen_text`, `notation`, with their round trips in `fen_laws` and
    `notation_laws`.
  - Engines: `reference` (alpha-beta, in `search` and `searcher`), `example` (greedy) and
    `random`. `effort` says how many nodes a search takes and `pacing` how looks at the clock
    (`budget`) end it, so that the readings of the clock decide which move is played.
  - The referee: `arbiter` (one game), `native` (one engine's process, as seen from outside),
    `sandbox`, `failure`, `contest` (one match), `tally`, `plan`, `book`, `stats` and `results`.
- `tests/` runs the library on concrete games, positions and files.
- `app/` is the program around it: processes, counters, files and floating point.

A law is a public proof function whose name begins with `law_`.

The numbers of signals and system calls are those of Linux on x86-64.
