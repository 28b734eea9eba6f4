# oxyromon (verified core)

A ROM-set manager's sorting and Wii-image logic, written in Verus and proved
against its contracts.

- `src/text.rs` — substring search, first line, lexicographic order on characters.
- `src/path.rs` — Unix paths as strings: file name, extension, join, replacing
  the extension; with laws relating them.
- `src/pattern.rs` — regular expressions through the `regex` crate.
- `src/model.rs` — games, ROMs and ROM files.
- `src/sort_roms.rs` — unwanted-release filters, sorting a system's games into
  all regions / 1G1R / trash, planning and ordering the file moves.
- `src/sort_laws.rs` — what every sorting and every plan of moves satisfies.
- `src/wit.rs` — WBFS recognition, conversion destinations, `wit` command
  lines and outcomes, the `wit` version.
- `app/` — running `wit`, the database walk, prompts and file moves.
- `tests/` — examples, including comparisons with `std::path`.
