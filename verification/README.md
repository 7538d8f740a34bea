# latch_rs

Register descriptions for HDL sources. Registers and their fields are written
as annotations in VHDL (`-- @reg ...`, `-- @field ...`) or Verilog (`// ...`)
comments; the library reads them into a store, checks them (no two registers
or fields of a register share a name, no two fields of a register share a bit),
reports each error with the places it concerns, and reads and describes
registers as TOML.

Layout:

- `src/` — the library, verified with Verus: scanning and parsing the
  annotations (`scanner`, `kv`, `lower`, `parser`), the store (`state`,
  `slots`, `source_map`), the rules (`check`), error reports (`diagnostics`,
  and `report`, which renders them with `codespan-reporting` and checks a
  stored file end to end) and TOML (`toml_doc`, `toml_model`).
- `tests/` — tests of the library.
- `app/` — reading files from disk, and writing TOML with `serde`.
