# relayburn_analyze

Analysis of coding-agent sessions: where the tokens of a session go, which of
them were wasted, and what could be saved. The library is written in Verus; the
behaviour of each function is stated in its contract and proved.

## Layout

- `src/` is the verified library.
  - `records`, `span_tree`, `findings`: the data that is read and reported.
  - `text`, `order`, `groups`, `names`, `time`, `tokens`, `shell`: strings, stable
    sorting, grouping, time stamps and command lines.
  - `sessions`, `attempts`, `streaks`, `edits`, `skills`, `compaction`, `patterns`,
    `slices`, `waste`: patterns of wasted work, and the findings in words.
  - `hotspots`, `rollups`: what tool results cost, call by call and summed up.
  - `context_delta`, `flow_graph`: how a context grows, and the graph of a session.
  - `claude_md`, `md_cost`, `overhead`: instruction files and what they cost.
  - `ghost_files`, `ghost_surface`, `ghost_surface_inputs`, `ghost_report`: files of a
    harness that nothing calls.
  - `cost`, `provider`, `fidelity`, `compare`: rates, providers, what a record can
    tell, and models side by side.
  - `outside`: everything that is taken from other crates and believed without
    proof.
- `tests/` runs the library on concrete values.
- `app/` is ordinary Rust around the library: money in floating point, files on
  disk, and JSON.

## Money

The library holds no floating point. Where something costs money, it says which
turns pay for it, and in what shares. Where an order goes by cost and the shares
alone do not settle it, the caller hands in an integer for each amount that orders
as the amounts do, and the library puts the rows into that order. The sections of instruction files need none: they cost in
proportion to their bytes.

The names that a harness gives its files, and the names that sources have in
reports, are handed in as well.
