# bellwright_gold_editor

Reads and edits the player's gold and renown in Bellwright `.sav` files, with
the logic verified by Verus.

A save is a UE `SerializeCompressed` container (magic `VSWB`): a header, a
chunk table found relative to the `PACKAGE_FILE_TAG` (`c1 83 2a 9e`), and
128 KiB chunks that are Oodle-compressed or stored as `CC 06` blocks. The
decompressed payload is a protobuf blob. Gold is located by the unique record
shape `2a <len> <id> 30 <gold> 3a`; renown by its current value inside a
reputation record `20 89 c8 9b dd 02 22 <len> 08 <id1> 10 <value> 28 bb 0d`.
An edit rewrites the varint, fixes every enclosing length prefix when its
width changes, re-emits the touched chunks uncompressed, updates the header
sizes and Summary.CompressedSize, and reloads the result to check it.

Layout:

- `src/` — the verified library (`save`, `locate`, `tree`, `edit`,
  `rebuild`, `reload`, `stats`, `form`, and the `varint`, `bytes`, `text`,
  `oodle` building blocks). The library reads Oodle chunks from a table of
  decoded blocks; `SaveFile::blocks_to_decode` lists the blocks it needs.
- `tests/` — scenario tests on synthetic saves.
- `app/` — the desktop editor (eframe/egui, file dialog through rfd) and the
  headless `info` / `set` / `set-renown` commands; file reading, Oodle
  decoding through `oozextract` (whose panics on malformed blocks are caught
  there), backups and writing happen there.
