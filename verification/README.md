# embedded_debugger

Debug information for embedded firmware, as a verified library with a small command line
front end.

The library (`src/`) answers questions about an ELF image:

- `rtt`: symbols by name or pattern, the RTT control block, an overview of the image, and a
  cache that keeps each parsed image once.
- `parser`: the structures and variables that the DWARF sections describe, expressions such as
  `name.member[2]` over them, and the values that raw target memory holds.
- `debugger`: custom chip definitions for the `probe-rs` registry.
- `startup`, `text`, `error`: where files are looked for, texts and numbers, failures.

Every function has a contract that Verus proves. Object files are read with `object`, DWARF
sections with `gimli`, and chips are kept by `probe-rs`; the functions that call these crates
are the only ones whose contracts are taken on trust. They stand in `src/rtt/object_file.rs`,
`src/parser/dwarf_data.rs` and `src/debugger/registry.rs`, each with what it claims of the crate.
Three functions of the standard library are taken on trust as well: `String::push` in
`src/text.rs`, and `Arc::clone` and `Vec::leak` in `src/rtt/elf_cache.rs`.

Floating-point values are handed out by their bit patterns. The command line front end (`app/`)
turns them into numbers, reads files, logs, and prints JSON.

`tests/` runs the library on hand-made images and records.
