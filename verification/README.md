# tbgp

Temporal basic graph pattern matching, verified with Verus.

A graph is a list of edges with the time each edge first appears; an activity
stream says which edges are active at which times. The library finds the
candidate matchings of small patterns (two-edge paths and cycles, stars,
longer paths, triangles, rectangles), then runs automata, untimed or with
clocks, over the words that the activity of each matching's edges spells.

## Layout

- `src/` — the verified library. Every executable function states its
  result in its `ensures` clause over spec functions; `laws.rs` and
  `incremental.rs` hold the properties that relate several functions.
  - `join.rs` — equi-join of keyed lists, node-list intersection.
  - `edge.rs`, `active.rs` — edges, their indexes and node lists; activity.
  - `matching.rs`, `cycles.rs`, `patterns.rs` — pattern matchers.
  - `nfa.rs`, `tnfa.rs` — automata and their steps over matchings.
  - `runs.rs`, `on_demand.rs`, `multi_state.rs` — runs of an automaton over
    the activity stream, time point by time point: the baseline run, the
    on-demand run that catches late matchings up, and the run in which each
    matching follows a list of states.
  - `text.rs`, `input.rs` — parsing of the comma-separated input files.
- `app/` — reading files from disk, the TOML configuration, and the
  experiment drivers that time and print the runs.
- `tests/` — tests of the library on concrete inputs.

## Input files

- edges: `eid,src,dst[,first]` per line
- activity: `eid,time` per line
- automaton: `state,word,next_state[,accept]` per line
- timed automaton: `state,word,next_state[,clock_set[,condition[,bound]]]`

Lines starting with `#` and empty lines are skipped.
