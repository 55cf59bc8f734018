# smeltr

Deterministic analysis of Metal/MLX profiling sessions, as a verified library
and a command-line program around it.

A session is a stream of events with some metadata. From it the library computes

- a tree of GPU time per module and kernel, and its tables and traces
  (`breakdown`, `op_tables`, `breakdown_text`),
- which source line dispatched which kernels (`dispatch_origins`),
- memory per scope, heaps, footprints and over-budget windows (`memory`,
  `footprint`, `budget`, `memory_report`),
- what changed between two sessions (`diff`),
- findings: what went wrong, and what contributed to it (`rules`, `crash_join`,
  `analysis`, `report`),
- a trace for viewers (`export`),
- and what each subcommand decides and prints (`commands`).

## Layout

- `src/` is the library. Every function has a contract, and Verus proves it.
  Ratios and percentages are computed on integers, rounded as IEEE 754 doubles
  round (`double`); floating-point samples are held by their bits.
- `tests/` runs the library on concrete values.
- `app/` is the `smeltr` program: arguments, files, processes and the daemon's
  socket. It tests what a library function requires before it calls it.

What the library takes on trust from other crates stands in functions marked
`external_body`, each with a comment that says what is claimed: `uuid`, `time`,
`sha2`, `hex` and `serde_json`, and std's quotation marks, small letters and
`String::push`.

## What is proved beyond the contracts

Public proof functions state the laws of the library, among them:

- GPU time is conserved: what the tree shows adds up to what was measured, and
  no command buffer is counted twice (`conservation`).
- Clamped kernel times stay within their command buffer's window and fill it but
  for fractions; all of them together, and with them the tree, stay within the
  wall clock (`wall_clock`).
- Clamping settles: it only shortens, leaves alone what is within its window, and
  a second pass finds nothing to clamp (`wall_clock`).
- Grouping kernels by kind does not depend on their order, keeps the sums of every
  node, and changes nothing the second time (`regrouping`).
- The kernels of a completed command buffer are shown at its commit, whether they
  arrive before or after the completion, or even before the first commit; none is
  shown of a command buffer that never completes (`export`).
- A session compared with itself shows no change, and swapping two sessions
  mirrors every change of a scope or a kind of kernel (`diff`).
- A verdict from a diagnostic report is about a traced process and outranks any
  presumption (`crash_join`).
- A daemon is never started beside one that runs, and a recording leaves nothing
  behind (`commands::lifecycle`, `commands::record`).
