# memo — macOS memory usage analyzer, verified core

`memo` shows what is eating RAM and swap, grouped by **app** (one row for all
Chrome processes) or by **project** (every runtime a project spins up, found
from each process's working directory by walking up to the nearest project
marker).

The logic is a library verified with Verus; the program around it is plain
Rust.

## Layout

- `src/` — the verified library
  - `text.rs` — character-level string operations and their specifications
  - `scanner.rs` — `ProcessMemory`, size formatting, `vm_stat` / `sysctl` parsing,
    system memory arithmetic
  - `group.rs` — canonical app names, runtime families, marker walkup,
    grouping, the bridge column
  - `sort.rs` — stable sorting and sums over sequences
  - `app.rs` — the interactive view's state machine: navigation, selection,
    sorting, mode switching, key and mouse handling, scan results
  - `cli.rs` — the deep-scan selection, swap merging and listing order
  - `footprint.rs`, `detail.rs`, `top.rs` — reading the output of `footprint`,
    `ps`, `lsof` and `top`
  - `laws.rs` — properties of the library as a whole
- `app/` — `main`, the terminal loop, rendering, and everything that reads the
  machine (`sysinfo`, `sysctl`, `vm_stat`, `lsof`, `footprint`)
- `tests/` — tests of the library

## Usage

```bash
memo                       # interactive TUI (project mode)
memo --cli                 # grouped by app
memo --cli --group project # grouped by project
memo --ps                  # all processes, ungrouped
memo --cli --sort rss      # sort by rss, swap, total (default) or name
```
