# ore_board

Judge, parser and instance generator for a grid puzzle: a worker walks an
`N` by `N` grid, carries or rolls ores (`a`..`z`) and rocks (`@`), and
scores by dropping each ore into the hole (`A`..`Z`) of its kind.

- `src/` is the verified library (Verus): reading instances and answers,
  the rules of the replay, the reachability check and the random layouts of
  the instances, the SVG drawing of a board.
- `app/` is the plain Rust around it: the visualizer's entry points, random
  generator set-up, Perlin noise and the floating-point score.
- `tests/` exercise the library with the real outside crates.
