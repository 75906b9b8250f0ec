# bunny_dash

The level book of 3D Bunny Dash, a rhythm-jumping game, as a library
verified with Verus.

- `src/piece.rs` — the kinds of level pieces and their words in the level file.
- `src/levels.rs` — the level book: pages, level and boss numbering, name tags.
- `src/book_file.rs` — reading `levels.txt` into a book and writing it back,
  with the proof that a saved book loads back unchanged.
- `src/pieces.rs` — placing and deleting pieces, closest pieces first.
- `src/editor.rs`, `src/title.rs` — what the editor, title and settings keys do.
- `src/number.rs`, `src/text.rs` — decimal numerals, lines and words.

Distances and speeds are kept in tenths of a unit (`i64`), the precision the
level file is written with. Every `i64` of tenths is written and read back
exactly. What this means for the level file:

- A number is rounded to tenths as it is read, half up on the first digit
  that tenths cannot hold ("9.25" reads as 9.3, "2.5e-1" as 0.3), so it is
  saved again with one decimal at most.
- A number is a decimal numeral with an optional exponent ("106", "-2.5",
  ".5", "1e2", "2.5E-1"). "inf" and "NaN" are not numbers here, since tenths
  cannot hold them, and a line with such a value, or with a value that an
  `i64` of tenths cannot hold, gets the default (speed 8, distance 0).
- Zero is written "0": a level without a finish, or a piece at 0, is saved
  as "finish 0" / "cube 0" (both read back as 0).

`app/` is the Bevy game around the library: the window,
the physics (floating point), the drawing and the file on disk.
