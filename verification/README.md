# aoc23

Solutions to the Advent of Code 2023 puzzles of days 1 to 22, written in
Verus: every function of the library carries a contract that Verus proves.

Layout:

- `src/` — the library, one module per day (`day01` … `day22`, with the
  crucible search of day 17 in `day17_search`), plus `text` (lines, words,
  numbers) and `helpers`. Each module models its puzzle with spec functions
  over `Seq`, `int` and the like, and states each function's result over
  them; the laws that span several functions stand as public proof
  functions (`lemma_…`).
- `tests/` — tests on the puzzle samples and on edge cases, one file per day.
- `app/` — a small program, `app <day> <input file>`, that reads a puzzle
  input, checks what the library's functions require of it (failing as a
  malformed input should), calls the library and prints the answer.
