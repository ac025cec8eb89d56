# elf_size

A verified library and command-line tool for comparing ELF symbol sizes:
it reads the symbol tables of one or two ELF images, compares them by name
and writes the result as CSV for a viewer such as `vd` or `csvlens`.

## Layout

- `src/` — the library, verified with Verus.
  - `elf/symbols.rs` — symbols, diff rows, totals and their views.
  - `elf/symbol_diff.rs` — `compare_symbols`, the two CSV reports and
    name demangling, with their contracts.
  - `elf/diff_laws.rs` — laws of comparison (totals balance, comparing an
    image with itself, swapping the two images, rearranging the inputs, ...).
  - `elf/sort.rs` — merge sorts: rows by change and symbols by size (both
    stable), names into ascending order.
  - `elf/parsers/`, `runner/parsers/` — symbol tables read with `goblin` and
    with `elf`, behind small trusted wrappers, and the listing that
    `nm --print-size` prints, parsed by verified code (`elf/parsers/nm.rs`).
  - `elf/diff_engine.rs`, `runner/diff_engine.rs` — engine choice and the
    report for one image or a pair of images.
  - `output.rs` — viewer names, their resolution and the viewer commands.
  - `text.rs`, `table.rs` — decimal text, word splitting and CSV records.
  - `table_read.rs` — a CSV reader, and the law that it reads back every
    report the library writes.
- `tests/` — tests of the library on concrete values.
- `app/` — the command-line program: argument handling, file reading,
  running `nm` for the nm engine, and running the viewer processes.
