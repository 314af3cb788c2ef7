# greep

A small grep: searches files for a word, line by line, with a choice of
algorithm (`bf`, brute force; `bmh`, Boyer-Moore-Horspool).

- `src/` is the library, verified with Verus:
  - `search/` — the line-scoped search model (`model.rs`), both algorithms and
    their registry. Every algorithm is proved to report exactly the lines that
    contain the word, numbered from 1, in order.
  - `filelist.rs` — manifest parsing (comments, blank lines, `~`, repeats) and
    the directory-walk rule.
  - `path_identity.rs` — when two paths name the same path, component by
    component.
  - `options.rs` — checking the command line.
  - `loader.rs` — the read-or-map decision and binary detection.
  - `report.rs` — per-file display, run totals, timing summary, exit status.
- `app/` is the command: clap parsing, file and directory I/O, threads, clocks
  and printing.
- `tests/` exercises the library.
