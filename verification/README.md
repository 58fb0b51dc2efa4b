# ayaya

A library for a compact encoding of an ANSI-art picture, with its proofs.

- `src/` is verified with Verus:
  - `text.rs`: UTF-8 encoding of characters and literals, decimal numbers;
  - `ansi.rs`: the picture's tokens and the terminal text they stand for;
  - `parse.rs`: the grammar of that text and its parser;
  - `dedupe.rs`: removal of repeated colors;
  - `mapping.rs`: the color and character lookup tables and their source text;
  - `encode.rs`: the one-or-two-bytes-per-token encoding and its decoder;
  - `picture.rs`: the whole encoding of a picture and its round trip;
  - `inflate.rs`: inflating a compressed picture with `miniz_oxide`.
- `tests/` runs the library on concrete pictures.
- `app/` is the command line: `dedupe`, `draw` and `inflate`.

The byte encoding: `0xff` is a line break; `0xfb` to `0xfe` is entry 0 to 3
of the character table, drawn in the previous colors; any other byte is an
index into the color table, followed by an index into the character table.
