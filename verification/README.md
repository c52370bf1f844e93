# lup

`lup` walks up the directory hierarchy from the working directory and reports
the ancestors at which a literal path exists (`source $(lup .env)`).

## Layout

- `src/` — the verified library.
  - `walk.rs`: core types, path joining and parent computation, and
    `Walker`, the state machine that decides each step of the upward walk
    (probe, read, ascend, finish) and records the hits. Laws: the walk never
    goes above its boundary, the boundary is inclusive, hits come closest
    first and only the first is kept without `--all`, every walk ends, and two
    walks that get the same probe answers end the same way.
  - `boundary.rs`: the default boundary (HOME when the working directory is
    HOME or below it, `/` otherwise); "at or below" is a partial order.
  - `cli.rs`: the argument parser, its validation rules, help and version;
    what it accepts passes validation, and, when no argument is `--` or
    `--completions` and at most one is positional, reordering the arguments
    of a successful parse does not change it.
  - `output.rs`: the bytes written for the hits, including paths relative to
    the working directory, which lead back to the hit by the fewest `..`.
  - `completions/`: shell completion scripts.
  - `bytes.rs`: byte-string helpers.
- `app/main.rs` — the command: argv, environment, the `openat`/`faccessat`/
  `fstatat` probes that the walker asks for, file reads for `--echo`, stdout
  and exit codes.
- `tests/` — tests of the library.
