# maplestory_union_solver_wasm

A solver for the MapleStory Union placement puzzle (an exact cover of a
set of board cells by polyomino pieces, with one piece's mark on the
board center), written in Verus: the library's functions are verified
against `requires` / `ensures` contracts. The few that only call out to
the random generator, the clock or the cancellation flag (such as
`make_rng`, `entropy_seed` and `CancelFlag::is_cancelled`) promise
nothing about what those give back.

## Layout

```
src/                    the verified library
├── base/               bit sets, random numbers, connectivity
├── domain/             pieces, their rotations and reflections, connected
│                       shapes, placements
├── io/                 solver input and output records, cell keys
├── solver/             search state, pruning, backtracking search
├── ml/                 training-instance synthesis and branch tracing
├── bench.rs            statistics of benchmark runs
└── text.rs             decimal and key text
tests/                  tests of the library
app/                    the benchmark command line: files, threads,
                        JSON, and the floating-point draws of synthesis
```

Randomness, the clock and the cancellation flag come from outside
crates and the host; the contracts of those calls say only what holds
of every outcome, and the verified code that uses them is proved for
every outcome.
