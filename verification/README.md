# trek

A command-line tool for FiveM resource development: it scaffolds resources,
lints and versions `fxmanifest.lua`, packs resources into zip archives and
checks NUI contracts. The logic is a Verus library whose functions carry
`requires`/`ensures` contracts proved by Verus; the program around it reads
and writes files and prints.

## Layout

- `src/` — the verified library
  - `text` — character-sequence models of `str` operations (lines, trim,
    split, decimal) and the executable helpers proved against them
  - `lexer`, `parser`, `ast`, `manifest` — the `fxmanifest.lua` pipeline:
    text → tokens → declarations → manifest
  - `diagnostic` — diagnostics and compiler-style code frames
  - `lint` — the manifest rules behind `trek validate`
  - `version` — semantic versions and the `version` declaration
  - `readback` — a bumped manifest reads back as its new version
  - `pack` — `.pack` include patterns, sizes, the pack report, checksums
  - `schema` — the NUI contract and its validation
  - `scaffold` — framework selection and the files of a new resource
- `tests/` — tests of the library
- `app/` — the `trek` command line: argument parsing, file and archive I/O,
  terminal styling, YAML and JSON Schema for NUI contracts
