# glyphspack

Converts between the two flavors of Glyphs font files: the standalone `.glyphs` file and the
`.glyphspackage` directory (font info, glyph order, UI state and one file per glyph).

## Layout

- `src/` is the library, verified with Verus.
  - `grammar.rs`: the property-list grammar as a mathematical parser over characters.
  - `plist.rs`: the parser that runs, proved to agree with the grammar, and the texts of
    dictionary and array files.
  - `framing.rs`, `laws.rs`: what a parse depends on, and what is written back from parsed
    text parses to what was read.
  - `pack.rs`: splitting a standalone file into the files of a package, and glyph file names.
  - `unpack.rs`: joining the files of a package into a standalone file.
  - `roundtrip.rs`: what a file keeps when it is split and joined again, in either direction.
  - `text.rs`: string helpers between `str`, characters and bytes.
- `app/` is the command-line program: arguments, reading and writing files, and parallel
  glyph file access.
- `tests/` runs the library on concrete inputs.
