# viy

Lightweight end-to-end process monitoring for Linux: `viy <command>` runs the
command, samples its whole process tree (CPU, memory, I/O, network, threads,
file descriptors) while it runs, and prints a report to stderr with charts
and insights, optionally correlated with a Python function trace.

## Layout

- `src/` — the library, verified with Verus. Everything the monitor computes
  from what it reads lives here, each function with a contract:
  - `metrics`, `sampler`, `process_tree`, `parse`, `wait` — samples and their
    compression, the run summary, I/O watermarks, the sampling schedule,
    process-tree discovery, `/proc/net/dev` parsing, and what each report of
    `waitpid` means;
  - `insights` — the findings of the report;
  - `py_trace` — the Python injector script, the reading of its trace, and
    the sample peaks the trace is asked about;
  - `terminal` — the text of the report: frames, rows, charts, and what holds
    of it without colors;
  - `binary64`, `rounding`, `numfmt` — an exact model of IEEE 754 binary64
    arithmetic (round to nearest, ties to even), so that every floating-point
    figure of the report is computed and specified on integers;
  - `colors`, `text` — ANSI styling and character-level text helpers.
- `tests/` — tests of the library, many comparing it with the same
  computation done in `f64`.
- `app/` — the `viy` program: command-line parsing, spawning and waiting for
  the command, signal forwarding, reading `/proc`, JSON output, writing the
  report, and the Python timeline, whose logic works on arbitrary `f64` trace
  times.

Laws that hold across functions are public proof functions named `law_*`.
