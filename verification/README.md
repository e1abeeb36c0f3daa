# aoc2024

Solutions to the Advent of Code 2024 puzzles, written as a Verus library: each day's
parsing, search and arithmetic is executable Rust whose behaviour is stated in `requires`
/ `ensures` contracts and proved by Verus.

## Layout

- `src/` – the verified library.
  - `day01.rs` … `day25.rs`: one module per puzzle. Each has a `run` function from the
    puzzle text to the two answers, and the functions it is built from, each with its
    contract.
  - `grid.rs`: points, directions and a rectangular grid of cells (lookup, update, block
    fill, flood fill, parsing).
  - `quadmap.rs`: an unbounded map of cells, stored in blocks of 16 by 16.
  - `text.rs`: lines, numbers and decimal output on bytes.
  - `bfs.rs`, `sorting.rs`, `bits.rs`, `extrapolate.rs`, `util.rs`: shared helpers.
  - `laws.rs`: properties that span several functions, stated and proved as proof
    functions.
  - `error.rs`: the library's error type.
- `tests/`: tests of the library on the puzzles' sample inputs and on edge cases.
- `app/`: the command-line program: it fetches or reads each day's input, checks what the
  library asks of it, runs the day and prints the answers and timings.

The one outside crate the library calls is `regex` (day 3), behind a trusted wrapper whose
contract names what the match returns.
